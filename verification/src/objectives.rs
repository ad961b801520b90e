//! What an optimization of the force densities can be asked to achieve.

use crate::arithmetic::{functional, plus, product_of, root_of, sqrt, sum_of, times, Arithmetic};
use crate::array::{fits, Array2, Grid};
use crate::double::{Real, EPSILON};
use crate::error::{Complaint, Listed, TheseusError};
use vstd::prelude::*;

verus! {

/// How the residuals of a geometric target are put together.
#[derive(Debug, Clone, Copy, PartialEq, Eq, Structural)]
pub enum TargetGeometryReduction {
    /// Sum of squares; code 0.
    Sse,
    /// Mean of squares; code 1.
    Mse,
    /// Root of the mean of squares; code 2.
    Rmse,
}

/// What the magnitude of a reaction is taken along.
#[derive(Debug, Clone, Copy, PartialEq, Eq, Structural)]
pub enum ReactionMagnitudeSign {
    Unsigned,
    /// The magnitude has the sign of the reaction along its target direction.
    SignedProjected,
}

/// How the magnitude of a reaction is held against its target.
#[derive(Debug, Clone, Copy, PartialEq, Eq, Structural)]
pub enum ReactionMagnitudeBehavior {
    Max,
    /// Another behaviour, which the optimizer knows by this code.
    Coded(i32),
}

/// An objective with its weight.
#[allow(inconsistent_fields)]
#[derive(Debug)]
pub enum Objective {
    TargetXyz {
        weight: Real,
        node_indices: Vec<usize>,
        target: Array2,
        reduction: TargetGeometryReduction,
    },
    TargetXy {
        weight: Real,
        node_indices: Vec<usize>,
        target: Array2,
        reduction: TargetGeometryReduction,
    },
    TargetPlane {
        weight: Real,
        node_indices: Vec<usize>,
        target: Array2,
        origin: [Real; 3],
        x_axis: [Real; 3],
        y_axis: [Real; 3],
        reduction: TargetGeometryReduction,
    },
    PlanarConstraintAlongDirection {
        weight: Real,
        node_indices: Vec<usize>,
        origin: [Real; 3],
        x_axis: [Real; 3],
        y_axis: [Real; 3],
        direction: [Real; 3],
    },
    TargetLength { weight: Real, edge_indices: Vec<usize>, target: Vec<Real> },
    TargetForce { weight: Real, edge_indices: Vec<usize>, target: Vec<Real> },
    LengthVariation {
        weight: Real,
        edge_indices: Vec<usize>,
        sharpness: Real,
        use_normalized_variance: bool,
        normalization_strategy: i32,
    },
    ForceVariation {
        weight: Real,
        edge_indices: Vec<usize>,
        sharpness: Real,
        use_normalized_variance: bool,
        normalization_strategy: i32,
    },
    SumForceLength { weight: Real, edge_indices: Vec<usize> },
    MinLength { weight: Real, edge_indices: Vec<usize>, threshold: Vec<Real>, sharpness: Real },
    MaxLength { weight: Real, edge_indices: Vec<usize>, threshold: Vec<Real>, sharpness: Real },
    MinForce { weight: Real, edge_indices: Vec<usize>, threshold: Vec<Real>, sharpness: Real },
    MaxForce { weight: Real, edge_indices: Vec<usize>, threshold: Vec<Real>, sharpness: Real },
    RigidSetCompare { weight: Real, node_indices: Vec<usize>, target: Array2 },
    ReactionDirection { weight: Real, anchor_indices: Vec<usize>, target_directions: Array2 },
    ReactionDirectionMagnitude {
        weight: Real,
        anchor_indices: Vec<usize>,
        target_directions: Array2,
        target_magnitudes: Vec<Real>,
        behavior: ReactionMagnitudeBehavior,
        sign: ReactionMagnitudeSign,
    },
    ReactionMagnitude {
        weight: Real,
        anchor_indices: Vec<usize>,
        target_directions: Array2,
        target_magnitudes: Vec<Real>,
        behavior: ReactionMagnitudeBehavior,
        sign: ReactionMagnitudeSign,
    },
}

/// The reduction with this code.
pub open spec fn reduction_of(value: i32) -> Result<TargetGeometryReduction, TheseusError> {
    if value == 0 {
        Ok(TargetGeometryReduction::Sse)
    } else if value == 1 {
        Ok(TargetGeometryReduction::Mse)
    } else if value == 2 {
        Ok(TargetGeometryReduction::Rmse)
    } else {
        Err(TheseusError::Shape(Complaint::UnknownReduction(value)))
    }
}

impl TryFrom<i32> for TargetGeometryReduction {
    type Error = TheseusError;

    fn try_from(value: i32) -> (r: Result<TargetGeometryReduction, TheseusError>)
    {
        match value {
            0 => Ok(TargetGeometryReduction::Sse),
            1 => Ok(TargetGeometryReduction::Mse),
            2 => Ok(TargetGeometryReduction::Rmse),
            other => Err(TheseusError::Shape(Complaint::UnknownReduction(other))),
        }
    }
}

impl vstd::std_specs::convert::TryFromSpecImpl<i32> for TargetGeometryReduction {
    open spec fn obeys_try_from_spec() -> bool {
        true
    }

    open spec fn try_from_spec(value: i32) -> Result<TargetGeometryReduction, TheseusError> {
        reduction_of(value)
    }
}

/// Whether `r` holds the flat list as rows of three, one for each of `n` indices.
pub open spec fn rows_outcome(
    n: nat,
    flat: Seq<Real>,
    listed: Listed,
    r: Result<Array2, TheseusError>,
) -> bool {
    if fits(n, 3) && flat.len() == n * 3 {
        r matches Ok(g) && g@ == Grid::generated(n, 3, |i: int, j: int| flat[i * 3 + j])
    } else {
        r == Err::<Array2, _>(TheseusError::Shape(Complaint::ListLength(listed)))
    }
}

/// A flat list as rows of three, one for each of `n` indices.
pub fn rows_of_three(n: usize, flat: Vec<Real>, listed: Listed) -> (r: Result<Array2, TheseusError>)
    ensures
        rows_outcome(n as nat, flat@, listed, r),
{
    match Array2::from_rows(n, 3, flat) {
        Some(g) => Ok(g),
        None => Err(TheseusError::Shape(Complaint::ListLength(listed))),
    }
}

/// The length of a row of three.
pub open spec fn row_length<A: Arithmetic>(ar: A, g: Grid, row: int) -> Real {
    root_of(
        ar,
        sum_of(
            ar,
            sum_of(
                ar,
                product_of(ar, g.at(row, 0), g.at(row, 0)),
                product_of(ar, g.at(row, 1), g.at(row, 1)),
            ),
            product_of(ar, g.at(row, 2), g.at(row, 2)),
        ),
    )
}

/// Whether a row is too short to be a direction.
pub open spec fn directionless<A: Arithmetic>(ar: A, g: Grid, row: int) -> bool {
    row_length(ar, g, row).below(Real { bits: EPSILON })
}

/// Whether `r` tells that the sign of every reaction can be taken, or the first row
/// without a direction to take it along.
pub open spec fn sign_outcome<A: Arithmetic>(
    ar: A,
    dirs: Grid,
    sign: ReactionMagnitudeSign,
    r: Result<(), TheseusError>,
) -> bool {
    match sign {
        ReactionMagnitudeSign::Unsigned => r is Ok,
        ReactionMagnitudeSign::SignedProjected => match r {
            Ok(_) => functional(ar) ==> forall|i: int|
                0 <= i < dirs.rows ==> !#[trigger] directionless(ar, dirs, i),
            Err(e) => exists|row: usize|
                {
                    &&& e == #[trigger] without_direction(row)
                    &&& row < dirs.rows
                    &&& functional(ar) ==> directionless(ar, dirs, row as int)
                    &&& functional(ar) ==> forall|i: int|
                        0 <= i < row ==> !#[trigger] directionless(ar, dirs, i)
                },
        },
    }
}

/// The complaint about a row without a direction.
pub open spec fn without_direction(row: usize) -> TheseusError {
    TheseusError::Shape(Complaint::ReactionDirection { row })
}

/// Checks that signed magnitudes have directions to be taken along.
pub fn validate_reaction_sign_dirs<A: Arithmetic>(
    ar: &A,
    dirs: &Array2,
    sign: ReactionMagnitudeSign,
) -> (r: Result<(), TheseusError>)
    requires
        dirs@.cols == 3,
    ensures
        sign_outcome(*ar, dirs@, sign, r),
{
    if sign != ReactionMagnitudeSign::SignedProjected {
        return Ok(());
    }
    let rows: usize = dirs.nrows();
    for row in 0..rows
        invariant
            rows == dirs@.rows,
            dirs@.cols == 3,
            sign == ReactionMagnitudeSign::SignedProjected,
            functional(*ar) ==> forall|i: int| 0 <= i < row ==> !#[trigger] directionless(
                *ar,
                dirs@,
                i,
            ),
    {
        let x = times(ar, dirs.cell(row, 0), dirs.cell(row, 0));
        let y = times(ar, dirs.cell(row, 1), dirs.cell(row, 1));
        let z = times(ar, dirs.cell(row, 2), dirs.cell(row, 2));
        let xy = plus(ar, x, y);
        let xyz = plus(ar, xy, z);
        let length = sqrt(ar, xyz);
        proof {
            if functional(*ar) {
                assert(length == row_length(*ar, dirs@, row as int));
            }
        }
        if length.lt(Real { bits: EPSILON }) {
            assert(functional(*ar) ==> directionless(*ar, dirs@, row as int));
            let e = TheseusError::Shape(Complaint::ReactionDirection { row });
            assert(e == without_direction(row));
            return Err(e);
        }
    }
    Ok(())
}

/// Whether `r` is the objective on reactions with these target directions, or why there is
/// none.
pub open spec fn directed_outcome<A: Arithmetic>(
    ar: A,
    weight: Real,
    anchor_indices: Vec<usize>,
    target_directions: Array2,
    target_magnitudes: Vec<Real>,
    behavior: ReactionMagnitudeBehavior,
    sign: ReactionMagnitudeSign,
    directed: bool,
    r: Result<Objective, TheseusError>,
) -> bool {
    exists|verdict: Result<(), TheseusError>|
        {
            &&& #[trigger] sign_outcome(ar, target_directions@, sign, verdict)
            &&& match verdict {
                Err(e) => r == Err::<Objective, _>(e),
                Ok(_) => if target_magnitudes@.len() != anchor_indices@.len() {
                    r == Err::<Objective, _>(
                        TheseusError::Shape(Complaint::ListLength(Listed::Magnitudes)),
                    )
                } else {
                    r == Ok::<Objective, TheseusError>(
                        if directed {
                            Objective::ReactionDirectionMagnitude {
                                weight,
                                anchor_indices,
                                target_directions,
                                target_magnitudes,
                                behavior,
                                sign,
                            }
                        } else {
                            Objective::ReactionMagnitude {
                                weight,
                                anchor_indices,
                                target_directions,
                                target_magnitudes,
                                behavior,
                                sign,
                            }
                        },
                    )
                },
            }
        }
}

impl Objective {
    /// Nodes are to come to target positions.
    pub fn target_xyz(
        weight: Real,
        node_indices: Vec<usize>,
        target_xyz: Vec<Real>,
        reduction: i32,
    ) -> (r: Result<Objective, TheseusError>)
        ensures
            exists|rows: Result<Array2, TheseusError>|
                {
                    &&& #[trigger] rows_outcome(
                        node_indices@.len(),
                        target_xyz@,
                        Listed::Targets,
                        rows,
                    )
                    &&& match (rows, reduction_of(reduction)) {
                        (Err(e), _) => r == Err::<Objective, _>(e),
                        (Ok(_), Err(e)) => r == Err::<Objective, _>(e),
                        (Ok(target), Ok(reduction)) => r == Ok::<Objective, TheseusError>(
                            Objective::TargetXyz { weight, node_indices, target, reduction },
                        ),
                    }
                },
    {
        let rows = rows_of_three(node_indices.len(), target_xyz, Listed::Targets);
        let ghost kept = rows;
        assert(rows_outcome(node_indices@.len(), target_xyz@, Listed::Targets, kept));
        let target = match rows {
            Ok(target) => target,
            Err(e) => {
                return Err(e);
            },
        };
        match TargetGeometryReduction::try_from(reduction) {
            Ok(reduction) => Ok(
                Objective::TargetXyz { weight, node_indices, target, reduction },
            ),
            Err(e) => Err(e),
        }
    }

    /// Nodes are to come to target positions, as seen along the third axis.
    pub fn target_xy(
        weight: Real,
        node_indices: Vec<usize>,
        target_xy: Vec<Real>,
        reduction: i32,
    ) -> (r: Result<Objective, TheseusError>)
        ensures
            exists|rows: Result<Array2, TheseusError>|
                {
                    &&& #[trigger] rows_outcome(
                        node_indices@.len(),
                        target_xy@,
                        Listed::Targets,
                        rows,
                    )
                    &&& match (rows, reduction_of(reduction)) {
                        (Err(e), _) => r == Err::<Objective, _>(e),
                        (Ok(_), Err(e)) => r == Err::<Objective, _>(e),
                        (Ok(target), Ok(reduction)) => r == Ok::<Objective, TheseusError>(
                            Objective::TargetXy { weight, node_indices, target, reduction },
                        ),
                    }
                },
    {
        let rows = rows_of_three(node_indices.len(), target_xy, Listed::Targets);
        let ghost kept = rows;
        assert(rows_outcome(node_indices@.len(), target_xy@, Listed::Targets, kept));
        let target = match rows {
            Ok(target) => target,
            Err(e) => {
                return Err(e);
            },
        };
        match TargetGeometryReduction::try_from(reduction) {
            Ok(reduction) => Ok(Objective::TargetXy { weight, node_indices, target, reduction }),
            Err(e) => Err(e),
        }
    }

    /// Nodes are to come to target positions, as seen on a plane.
    pub fn target_plane(
        weight: Real,
        node_indices: Vec<usize>,
        target_xyz: Vec<Real>,
        origin: [Real; 3],
        x_axis: [Real; 3],
        y_axis: [Real; 3],
        reduction: i32,
    ) -> (r: Result<Objective, TheseusError>)
        ensures
            exists|rows: Result<Array2, TheseusError>|
                {
                    &&& #[trigger] rows_outcome(
                        node_indices@.len(),
                        target_xyz@,
                        Listed::Targets,
                        rows,
                    )
                    &&& match (rows, reduction_of(reduction)) {
                        (Err(e), _) => r == Err::<Objective, _>(e),
                        (Ok(_), Err(e)) => r == Err::<Objective, _>(e),
                        (Ok(target), Ok(reduction)) => r == Ok::<Objective, TheseusError>(
                            Objective::TargetPlane {
                                weight,
                                node_indices,
                                target,
                                origin,
                                x_axis,
                                y_axis,
                                reduction,
                            },
                        ),
                    }
                },
    {
        let rows = rows_of_three(node_indices.len(), target_xyz, Listed::Targets);
        let ghost kept = rows;
        assert(rows_outcome(node_indices@.len(), target_xyz@, Listed::Targets, kept));
        let target = match rows {
            Ok(target) => target,
            Err(e) => {
                return Err(e);
            },
        };
        match TargetGeometryReduction::try_from(reduction) {
            Ok(reduction) => Ok(
                Objective::TargetPlane {
                    weight,
                    node_indices,
                    target,
                    origin,
                    x_axis,
                    y_axis,
                    reduction,
                },
            ),
            Err(e) => Err(e),
        }
    }

    /// A set of nodes is to keep the distances of its targets.
    pub fn rigid_set_compare(weight: Real, node_indices: Vec<usize>, target_xyz: Vec<Real>) -> (r:
        Result<Objective, TheseusError>)
        ensures
            exists|rows: Result<Array2, TheseusError>|
                {
                    &&& #[trigger] rows_outcome(
                        node_indices@.len(),
                        target_xyz@,
                        Listed::Targets,
                        rows,
                    )
                    &&& match rows {
                        Err(e) => r == Err::<Objective, _>(e),
                        Ok(target) => r == Ok::<Objective, TheseusError>(
                            Objective::RigidSetCompare { weight, node_indices, target },
                        ),
                    }
                },
    {
        let rows = rows_of_three(node_indices.len(), target_xyz, Listed::Targets);
        let ghost kept = rows;
        assert(rows_outcome(node_indices@.len(), target_xyz@, Listed::Targets, kept));
        match rows {
            Ok(target) => Ok(Objective::RigidSetCompare { weight, node_indices, target }),
            Err(e) => Err(e),
        }
    }

    /// Reactions are to take target directions.
    pub fn reaction_direction(weight: Real, anchor_indices: Vec<usize>, target_dirs: Vec<Real>) -> (r:
        Result<Objective, TheseusError>)
        ensures
            exists|rows: Result<Array2, TheseusError>|
                {
                    &&& #[trigger] rows_outcome(
                        anchor_indices@.len(),
                        target_dirs@,
                        Listed::Targets,
                        rows,
                    )
                    &&& match rows {
                        Err(e) => r == Err::<Objective, _>(e),
                        Ok(target_directions) => r == Ok::<Objective, TheseusError>(
                            Objective::ReactionDirection {
                                weight,
                                anchor_indices,
                                target_directions,
                            },
                        ),
                    }
                },
    {
        let rows = rows_of_three(anchor_indices.len(), target_dirs, Listed::Targets);
        let ghost kept = rows;
        assert(rows_outcome(anchor_indices@.len(), target_dirs@, Listed::Targets, kept));
        match rows {
            Ok(target_directions) => Ok(
                Objective::ReactionDirection { weight, anchor_indices, target_directions },
            ),
            Err(e) => Err(e),
        }
    }

    /// Reactions are to take target magnitudes, and target directions too if `directed`.
    pub fn reaction_magnitude<A: Arithmetic>(
        ar: &A,
        weight: Real,
        anchor_indices: Vec<usize>,
        target_dirs: Vec<Real>,
        target_magnitudes: Vec<Real>,
        behavior: ReactionMagnitudeBehavior,
        sign: ReactionMagnitudeSign,
        directed: bool,
    ) -> (r: Result<Objective, TheseusError>)
        ensures
            exists|rows: Result<Array2, TheseusError>|
                {
                    &&& #[trigger] rows_outcome(
                        anchor_indices@.len(),
                        target_dirs@,
                        Listed::Targets,
                        rows,
                    )
                    &&& match rows {
                        Err(e) => r == Err::<Objective, _>(e),
                        Ok(dirs) => directed_outcome(
                            *ar,
                            weight,
                            anchor_indices,
                            dirs,
                            target_magnitudes,
                            behavior,
                            sign,
                            directed,
                            r,
                        ),
                    }
                },
    {
        let target_directions = match rows_of_three(
            anchor_indices.len(),
            target_dirs,
            Listed::Targets,
        ) {
            Ok(dirs) => dirs,
            Err(e) => {
                return Err(e);
            },
        };
        assert(rows_outcome(
            anchor_indices@.len(),
            target_dirs@,
            Listed::Targets,
            Ok(target_directions),
        ));
        match validate_reaction_sign_dirs(ar, &target_directions, sign) {
            Ok(_) => {},
            Err(e) => {
                return Err(e);
            },
        }
        if target_magnitudes.len() != anchor_indices.len() {
            return Err(TheseusError::Shape(Complaint::ListLength(Listed::Magnitudes)));
        }
        if directed {
            Ok(
                Objective::ReactionDirectionMagnitude {
                    weight,
                    anchor_indices,
                    target_directions,
                    target_magnitudes,
                    behavior,
                    sign,
                },
            )
        } else {
            Ok(
                Objective::ReactionMagnitude {
                    weight,
                    anchor_indices,
                    target_directions,
                    target_magnitudes,
                    behavior,
                    sign,
                },
            )
        }
    }
}

} // verus!
