//! Supports that may move, read from flat lists of numbers.

use crate::array::{Array2, Grid};
use crate::double::{Real, ONE, SIGN, ZERO};
use crate::error::{Complaint, Counted, TheseusError};
use crate::vector::slice;
use vstd::prelude::*;

verus! {

/// A rational curve as its data.
#[derive(Debug)]
pub struct NurbsCurveData {
    pub degree: usize,
    pub knots: Vec<Real>,
    /// Control points with their weights.
    pub control_points: Vec<[Real; 4]>,
}

/// A rational surface as its data.
#[derive(Debug)]
pub struct NurbsSurfaceData {
    pub degree_u: usize,
    pub degree_v: usize,
    pub knots_u: Vec<Real>,
    pub knots_v: Vec<Real>,
    pub count_u: usize,
    pub count_v: usize,
    /// Control points with their weights.
    pub control_points: Vec<[Real; 4]>,
}

/// Where a support may move.
#[derive(Debug)]
pub enum VariableSupportKind {
    Sphere { radius: Real },
    Roller { enabled: [bool; 3], lower: [Real; 3], upper: [Real; 3] },
    Rail { start: [Real; 3], end: [Real; 3] },
    NurbsCurve { curve: NurbsCurveData, domain: [Real; 2], initial_t: Real },
    NurbsSurface {
        surface: NurbsSurfaceData,
        domain_u: [Real; 2],
        domain_v: [Real; 2],
        initial_uv: [Real; 2],
    },
}

/// A support that may move.
#[derive(Debug)]
pub struct VariableSupport {
    pub node_index: usize,
    pub reference_position: [Real; 3],
    pub saturation_lambda: Real,
    pub kind: VariableSupportKind,
}

/// The count that a number stands for, if it is nearly a whole number.
pub open spec fn count_of_number(value: Real) -> Option<nat> {
    if !value.finite() || value.below(Real { bits: ZERO }) {
        None
    } else if value.level(Real { bits: ZERO }) {
        Some(0)
    } else if !value.near_whole() {
        None
    } else if value.whole_part() > usize::MAX {
        Some(usize::MAX as nat)
    } else {
        Some(value.whole_part())
    }
}

/// Reads a number as a count.
pub fn read_usize(value: Real, counted: Counted) -> (r: Result<usize, TheseusError>)
    ensures
        match count_of_number(value) {
            Some(n) => r == Ok::<usize, TheseusError>(n as usize) && n <= usize::MAX,
            None => r == Err::<usize, _>(TheseusError::Shape(Complaint::NotCount(counted))),
        },
{
    let zero = Real { bits: ZERO };
    if !value.is_finite() || value.lt(zero) {
        return Err(TheseusError::Shape(Complaint::NotCount(counted)));
    }
    if value.equals(zero) {
        return Ok(0);
    }
    assert(value.bits < SIGN);
    if !value.is_near_whole() {
        return Err(TheseusError::Shape(Complaint::NotCount(counted)));
    }
    let whole: u64 = value.whole();
    if whole as u128 > usize::MAX as u128 {
        Ok(usize::MAX)
    } else {
        Ok(whole as usize)
    }
}

/// The data of support `index`, or the complaint that is due.
pub open spec fn support_data(
    index: nat,
    offsets: Seq<usize>,
    lengths: Seq<usize>,
    data: Seq<Real>,
) -> Result<Seq<Real>, TheseusError> {
    if offsets.len() <= index || lengths.len() <= index {
        Err(TheseusError::Shape(Complaint::GeometryMissing { support: index as usize }))
    } else if offsets[index as int] + lengths[index as int] > usize::MAX {
        Err(TheseusError::Shape(Complaint::GeometryOverflow))
    } else if offsets[index as int] + lengths[index as int] > data.len() {
        Err(TheseusError::Shape(Complaint::GeometryRange { support: index as usize }))
    } else {
        Ok(
            data.subrange(
                offsets[index as int] as int,
                offsets[index as int] + lengths[index as int],
            ),
        )
    }
}

/// Whether a result holds what a specification asks for.
pub open spec fn holds_list(r: Result<Vec<Real>, TheseusError>, s: Result<Seq<Real>, TheseusError>) -> bool {
    match s {
        Ok(v) => r matches Ok(x) && x@ == v,
        Err(e) => r == Err::<Vec<Real>, _>(e),
    }
}

/// The data of support `index`.
pub fn nurbs_support_data(
    index: usize,
    offsets: &Vec<usize>,
    lengths: &Vec<usize>,
    data: &Vec<Real>,
) -> (r: Result<Vec<Real>, TheseusError>)
    ensures
        holds_list(r, support_data(index as nat, offsets@, lengths@, data@)),
{
    if offsets.len() <= index || lengths.len() <= index {
        return Err(TheseusError::Shape(Complaint::GeometryMissing { support: index }));
    }
    let offset: usize = offsets[index];
    let length: usize = lengths[index];
    let end: usize = match offset.checked_add(length) {
        Some(end) => end,
        None => {
            return Err(TheseusError::Shape(Complaint::GeometryOverflow));
        },
    };
    if end > data.len() {
        return Err(TheseusError::Shape(Complaint::GeometryRange { support: index }));
    }
    Ok(slice(data, offset, end))
}

/// Control points of four numbers each, from place `start` of the data.
pub open spec fn control_points_at(points: Seq<[Real; 4]>, data: Seq<Real>, start: int) -> bool {
    forall|i: int, d: int|
        0 <= i < points.len() && 0 <= d < 4 ==> #[trigger] points[i]@[d] == data[start + 4 * i + d]
}

/// Reads control points of four numbers each.
fn read_control_points(data: &Vec<Real>, start: usize, count: usize) -> (r: Vec<[Real; 4]>)
    requires
        start + 4 * count == data@.len(),
    ensures
        r@.len() == count,
        control_points_at(r@, data@, start as int),
{
    let ghost all = data.len();
    let mut r: Vec<[Real; 4]> = Vec::new();
    for i in 0..count
        invariant
            start + 4 * count == data@.len() == all <= usize::MAX,
            r@.len() == i,
            control_points_at(r@, data@, start as int),
    {
        let j: usize = start + i * 4;
        let point = [data[j], data[j + 1], data[j + 2], data[j + 3]];
        let ghost before = r@;
        r.push(point);
        proof {
            assert forall|k: int, d: int| 0 <= k < r@.len() && 0 <= d < 4 implies
                #[trigger] r@[k]@[d] == data@[start + 4 * k + d] by {
                if k < i {
                    assert(before[k]@[d] == data@[start + 4 * k + d]);
                } else {
                    assert(point@[0] == data@[j as int]);
                    assert(point@[1] == data@[j + 1]);
                    assert(point@[2] == data@[j + 2]);
                    assert(point@[3] == data@[j + 3]);
                    if d == 0 {
                    } else if d == 1 {
                    } else if d == 2 {
                    } else {
                        assert(d == 3);
                    }
                }
            }
        }
    }
    r
}

/// `n`, or the largest machine count where it is larger.
pub open spec fn machine_count(n: int) -> usize {
    if n > usize::MAX {
        usize::MAX
    } else {
        n as usize
    }
}

/// Whether `r` is the curve that the data hold: degree, number of knots, number of control
/// points, domain and start, then the knots and the control points.
pub open spec fn curve_outcome(data: Seq<Real>, r: Result<VariableSupportKind, TheseusError>) -> bool {
    if data.len() < 6 {
        r == Err::<VariableSupportKind, _>(TheseusError::Shape(Complaint::CurveShort))
    } else {
        match (count_of_number(data[0]), count_of_number(data[1]), count_of_number(data[2])) {
            (None, _, _) => r == Err::<VariableSupportKind, _>(
                TheseusError::Shape(Complaint::NotCount(Counted::CurveDegree)),
            ),
            (_, None, _) => r == Err::<VariableSupportKind, _>(
                TheseusError::Shape(Complaint::NotCount(Counted::CurveKnots)),
            ),
            (_, _, None) => r == Err::<VariableSupportKind, _>(
                TheseusError::Shape(Complaint::NotCount(Counted::CurveControlPoints)),
            ),
            (Some(degree), Some(knots), Some(points)) => {
                let expected = 6 + knots + points * 4;
                if data.len() != expected {
                    r == Err::<VariableSupportKind, _>(
                        TheseusError::Shape(
                            Complaint::CurveLength {
                                found: data.len() as usize,
                                expected: machine_count(expected as int),
                            },
                        ),
                    )
                } else {
                    match r {
                        Ok(VariableSupportKind::NurbsCurve { curve, domain, initial_t }) => {
                            &&& curve.degree == degree
                            &&& curve.knots@ == data.subrange(6, 6 + knots as int)
                            &&& curve.control_points@.len() == points
                            &&& control_points_at(curve.control_points@, data, 6 + knots as int)
                            &&& domain@ == seq![data[3], data[4]]
                            &&& initial_t == data[5]
                        },
                        _ => false,
                    }
                }
            },
        }
    }
}

/// Reads a curve.
pub fn parse_nurbs_curve_support(data: &Vec<Real>) -> (r: Result<VariableSupportKind, TheseusError>)
    ensures
        curve_outcome(data@, r),
{
    if data.len() < 6 {
        return Err(TheseusError::Shape(Complaint::CurveShort));
    }
    let degree: usize = match read_usize(data[0], Counted::CurveDegree) {
        Ok(n) => n,
        Err(e) => {
            return Err(e);
        },
    };
    let knot_count: usize = match read_usize(data[1], Counted::CurveKnots) {
        Ok(n) => n,
        Err(e) => {
            return Err(e);
        },
    };
    let cp_count: usize = match read_usize(data[2], Counted::CurveControlPoints) {
        Ok(n) => n,
        Err(e) => {
            return Err(e);
        },
    };
    let expected: u128 = 6 + (knot_count as u128) + 4 * (cp_count as u128);
    if data.len() as u128 != expected {
        let named: usize = if expected > usize::MAX as u128 {
            usize::MAX
        } else {
            expected as usize
        };
        return Err(
            TheseusError::Shape(
                Complaint::CurveLength { found: data.len(), expected: named },
            ),
        );
    }
    let start: usize = 6 + knot_count;
    let knots = slice(data, 6, start);
    let control_points = read_control_points(data, start, cp_count);
    let domain = [data[3], data[4]];
    assert(domain@ =~= seq![data@[3], data@[4]]);
    Ok(
        VariableSupportKind::NurbsCurve {
            curve: NurbsCurveData { degree, knots, control_points },
            domain,
            initial_t: data[5],
        },
    )
}

/// The counts at the head of the data of a surface, or which of them is no count.
pub open spec fn surface_counts(data: Seq<Real>) -> Result<Seq<nat>, Counted> {
    match (
        count_of_number(data[0]),
        count_of_number(data[1]),
        count_of_number(data[2]),
        count_of_number(data[3]),
        count_of_number(data[4]),
        count_of_number(data[5]),
    ) {
        (None, _, _, _, _, _) => Err(Counted::SurfaceDegreeU),
        (_, None, _, _, _, _) => Err(Counted::SurfaceDegreeV),
        (_, _, None, _, _, _) => Err(Counted::SurfaceControlPointsU),
        (_, _, _, None, _, _) => Err(Counted::SurfaceControlPointsV),
        (_, _, _, _, None, _) => Err(Counted::SurfaceKnotsU),
        (_, _, _, _, _, None) => Err(Counted::SurfaceKnotsV),
        (Some(a), Some(b), Some(c), Some(d), Some(e), Some(f)) => Ok(seq![a, b, c, d, e, f]),
    }
}

/// Whether `r` is the surface that the data hold: degrees, numbers of control points and of
/// knots along both directions, domains and start, then the knots along both directions and
/// the control points.
pub open spec fn surface_outcome(data: Seq<Real>, r: Result<VariableSupportKind, TheseusError>) -> bool {
    if data.len() < 12 {
        r == Err::<VariableSupportKind, _>(TheseusError::Shape(Complaint::SurfaceShort))
    } else {
        match surface_counts(data) {
            Err(counted) => r == Err::<VariableSupportKind, _>(
                TheseusError::Shape(Complaint::NotCount(counted)),
            ),
            Ok(n) => if n[2] * n[3] > usize::MAX {
                r == Err::<VariableSupportKind, _>(TheseusError::Shape(Complaint::SurfaceOverflow))
            } else {
                let points = n[2] * n[3];
                let expected = 12 + n[4] + n[5] + points * 4;
                if data.len() != expected {
                    r == Err::<VariableSupportKind, _>(
                        TheseusError::Shape(
                            Complaint::SurfaceLength {
                                found: data.len() as usize,
                                expected: machine_count(expected as int),
                            },
                        ),
                    )
                } else {
                    match r {
                        Ok(
                            VariableSupportKind::NurbsSurface {
                                surface,
                                domain_u,
                                domain_v,
                                initial_uv,
                            },
                        ) => {
                            &&& surface.degree_u == n[0]
                            &&& surface.degree_v == n[1]
                            &&& surface.count_u == n[2]
                            &&& surface.count_v == n[3]
                            &&& surface.knots_u@ == data.subrange(12, 12 + n[4] as int)
                            &&& surface.knots_v@ == data.subrange(
                                12 + n[4] as int,
                                12 + n[4] + n[5] as int,
                            )
                            &&& surface.control_points@.len() == points
                            &&& control_points_at(
                                surface.control_points@,
                                data,
                                12 + n[4] + n[5] as int,
                            )
                            &&& domain_u@ == seq![data[6], data[7]]
                            &&& domain_v@ == seq![data[8], data[9]]
                            &&& initial_uv@ == seq![data[10], data[11]]
                        },
                        _ => false,
                    }
                }
            },
        }
    }
}

/// Reads a surface.
pub fn parse_nurbs_surface_support(data: &Vec<Real>) -> (r: Result<
    VariableSupportKind,
    TheseusError,
>)
    ensures
        surface_outcome(data@, r),
{
    if data.len() < 12 {
        return Err(TheseusError::Shape(Complaint::SurfaceShort));
    }
    let degree_u: usize = match read_usize(data[0], Counted::SurfaceDegreeU) {
        Ok(n) => n,
        Err(e) => {
            return Err(e);
        },
    };
    let degree_v: usize = match read_usize(data[1], Counted::SurfaceDegreeV) {
        Ok(n) => n,
        Err(e) => {
            return Err(e);
        },
    };
    let count_u: usize = match read_usize(data[2], Counted::SurfaceControlPointsU) {
        Ok(n) => n,
        Err(e) => {
            return Err(e);
        },
    };
    let count_v: usize = match read_usize(data[3], Counted::SurfaceControlPointsV) {
        Ok(n) => n,
        Err(e) => {
            return Err(e);
        },
    };
    let knot_u_count: usize = match read_usize(data[4], Counted::SurfaceKnotsU) {
        Ok(n) => n,
        Err(e) => {
            return Err(e);
        },
    };
    let knot_v_count: usize = match read_usize(data[5], Counted::SurfaceKnotsV) {
        Ok(n) => n,
        Err(e) => {
            return Err(e);
        },
    };
    let cp_count: usize = match count_u.checked_mul(count_v) {
        Some(n) => n,
        None => {
            return Err(TheseusError::Shape(Complaint::SurfaceOverflow));
        },
    };
    let expected: u128 = 12 + (knot_u_count as u128) + (knot_v_count as u128) + 4 * (
    cp_count as u128);
    if data.len() as u128 != expected {
        let named: usize = if expected > usize::MAX as u128 {
            usize::MAX
        } else {
            expected as usize
        };
        return Err(
            TheseusError::Shape(
                Complaint::SurfaceLength { found: data.len(), expected: named },
            ),
        );
    }
    let kv_start: usize = 12 + knot_u_count;
    let cp_start: usize = kv_start + knot_v_count;
    let knots_u = slice(data, 12, kv_start);
    let knots_v = slice(data, kv_start, cp_start);
    let control_points = read_control_points(data, cp_start, cp_count);
    let domain_u = [data[6], data[7]];
    let domain_v = [data[8], data[9]];
    let initial_uv = [data[10], data[11]];
    assert(domain_u@ =~= seq![data@[6], data@[7]]);
    assert(domain_v@ =~= seq![data@[8], data@[9]]);
    assert(initial_uv@ =~= seq![data@[10], data@[11]]);
    Ok(
        VariableSupportKind::NurbsSurface {
            surface: NurbsSurfaceData {
                degree_u,
                degree_v,
                knots_u,
                knots_v,
                count_u,
                count_v,
                control_points,
            },
            domain_u,
            domain_v,
            initial_uv,
        },
    )
}

/// Variable supports as flat lists, with one or three numbers for each.
#[derive(Debug)]
pub struct SupportLists {
    pub nodes: Vec<usize>,
    pub kinds: Vec<i32>,
    /// Saturations; one for every support where there is no list.
    pub lambdas: Option<Vec<Real>>,
    pub radii: Vec<Real>,
    pub roller_enabled: Vec<bool>,
    pub roller_lower: Vec<Real>,
    pub roller_upper: Vec<Real>,
    pub rail_start: Vec<Real>,
    pub rail_end: Vec<Real>,
    pub nurbs_offsets: Vec<usize>,
    pub nurbs_lengths: Vec<usize>,
    pub nurbs_data: Vec<Real>,
    /// Why the numbers of a curve or a surface make none, in the words of whoever tried.
    pub nurbs_refusals: Vec<Option<String>>,
}

/// The numbers of support `i`.
pub open spec fn three<T>(v: Seq<T>, i: int) -> Seq<T> {
    seq![v[3 * i], v[3 * i + 1], v[3 * i + 2]]
}

impl SupportLists {
    /// Whether every list has its numbers for every support.
    pub open spec fn sized(self) -> bool {
        let n = self.nodes@.len();
        &&& self.kinds@.len() == n
        &&& self.lambdas matches Some(l) ==> l@.len() == n
        &&& self.radii@.len() == n
        &&& self.roller_enabled@.len() == 3 * n
        &&& self.roller_lower@.len() == 3 * n
        &&& self.roller_upper@.len() == 3 * n
        &&& self.rail_start@.len() == 3 * n
        &&& self.rail_end@.len() == 3 * n
        &&& self.nurbs_refusals@.len() == n
    }

    /// The saturation of support `i`.
    pub open spec fn lambda(self, i: int) -> Real {
        match self.lambdas {
            Some(l) => l@[i],
            None => Real { bits: ONE },
        }
    }

    /// Whether every list has its numbers for every support.
    pub fn is_sized(&self) -> (r: bool)
        ensures
            r == self.sized(),
    {
        let n: usize = self.nodes.len();
        let lambdas_fit = match &self.lambdas {
            Some(l) => l.len() == n,
            None => true,
        };
        let triple: u128 = 3 * (n as u128);
        self.kinds.len() == n && lambdas_fit && self.radii.len() == n
            && self.roller_enabled.len() as u128 == triple && self.roller_lower.len() as u128
            == triple && self.roller_upper.len() as u128 == triple
            && self.rail_start.len() as u128 == triple && self.rail_end.len() as u128 == triple
            && self.nurbs_refusals.len() == n
    }
}

/// Whether a number is finite and positive.
pub open spec fn finite_positive(v: Real) -> bool {
    v.finite() && (Real { bits: ZERO }).below(v)
}

/// Whether `r` is what was read, unless that is refused.
pub open spec fn unless_refused(
    read: Result<VariableSupportKind, TheseusError>,
    refusal: Option<String>,
    r: Result<VariableSupportKind, TheseusError>,
) -> bool {
    match (read, refusal) {
        (Ok(_), Some(words)) => r == Err::<VariableSupportKind, _>(
            TheseusError::Shape(Complaint::Worded(words)),
        ),
        _ => r == read,
    }
}

/// Whether `r` is the kind of support `i`, by its code and its numbers.
pub open spec fn kind_outcome(
    lists: SupportLists,
    i: int,
    r: Result<VariableSupportKind, TheseusError>,
) -> bool {
    let code = lists.kinds@[i];
    if code == 0 {
        if finite_positive(lists.radii@[i]) {
            r == Ok::<VariableSupportKind, TheseusError>(
                VariableSupportKind::Sphere { radius: lists.radii@[i] },
            )
        } else {
            r == Err::<VariableSupportKind, _>(
                TheseusError::Shape(Complaint::SphereRadius { support: i as usize }),
            )
        }
    } else if code == 1 {
        let axes = three(lists.roller_enabled@, i);
        if axes[0] || axes[1] || axes[2] {
            r matches Ok(VariableSupportKind::Roller { enabled, lower, upper }) && enabled@ == axes
                && lower@ == three(lists.roller_lower@, i) && upper@ == three(
                lists.roller_upper@,
                i,
            )
        } else {
            r == Err::<VariableSupportKind, _>(
                TheseusError::Shape(Complaint::RollerAxes { support: i as usize }),
            )
        }
    } else if code == 2 {
        r matches Ok(VariableSupportKind::Rail { start, end }) && start@ == three(
            lists.rail_start@,
            i,
        ) && end@ == three(lists.rail_end@, i)
    } else if code == 3 || code == 4 {
        match support_data(
            i as nat,
            lists.nurbs_offsets@,
            lists.nurbs_lengths@,
            lists.nurbs_data@,
        ) {
            Err(e) => r == Err::<VariableSupportKind, _>(e),
            Ok(data) => exists|read: Result<VariableSupportKind, TheseusError>|
                {
                    &&& if code == 3 {
                        curve_outcome(data, read)
                    } else {
                        surface_outcome(data, read)
                    }
                    &&& #[trigger] unless_refused(read, lists.nurbs_refusals@[i], r)
                },
        }
    } else {
        r == Err::<VariableSupportKind, _>(
            TheseusError::Shape(Complaint::SupportKind { code, support: i as usize }),
        )
    }
}

/// The three numbers of support `i`.
fn read_three(v: &Vec<Real>, i: usize) -> (r: [Real; 3])
    requires
        3 * i + 2 < v@.len(),
    ensures
        r@ == three(v@, i as int),
{
    let ghost all = v.len();
    let r = [v[3 * i], v[3 * i + 1], v[3 * i + 2]];
    assert(r@ =~= three(v@, i as int));
    r
}

/// The kind of support `i`, by its code and its numbers.
pub fn support_kind(lists: &SupportLists, i: usize) -> (r: Result<VariableSupportKind, TheseusError>)
    requires
        lists.sized(),
        i < lists.nodes@.len(),
    ensures
        kind_outcome(*lists, i as int, r),
{
    let code: i32 = lists.kinds[i];
    if code == 0 {
        let radius = lists.radii[i];
        if !radius.is_finite() || radius.le(Real { bits: ZERO }) {
            return Err(TheseusError::Shape(Complaint::SphereRadius { support: i }));
        }
        Ok(VariableSupportKind::Sphere { radius })
    } else if code == 1 {
        let ghost all = lists.roller_enabled.len();
        let e0 = lists.roller_enabled[3 * i];
        let e1 = lists.roller_enabled[3 * i + 1];
        let e2 = lists.roller_enabled[3 * i + 2];
        if !(e0 || e1 || e2) {
            return Err(TheseusError::Shape(Complaint::RollerAxes { support: i }));
        }
        let enabled = [e0, e1, e2];
        assert(enabled@ =~= three(lists.roller_enabled@, i as int));
        Ok(
            VariableSupportKind::Roller {
                enabled,
                lower: read_three(&lists.roller_lower, i),
                upper: read_three(&lists.roller_upper, i),
            },
        )
    } else if code == 2 {
        Ok(
            VariableSupportKind::Rail {
                start: read_three(&lists.rail_start, i),
                end: read_three(&lists.rail_end, i),
            },
        )
    } else if code == 3 || code == 4 {
        let data = match nurbs_support_data(
            i,
            &lists.nurbs_offsets,
            &lists.nurbs_lengths,
            &lists.nurbs_data,
        ) {
            Ok(data) => data,
            Err(e) => {
                return Err(e);
            },
        };
        let read = if code == 3 {
            parse_nurbs_curve_support(&data)
        } else {
            parse_nurbs_surface_support(&data)
        };
        let r = match (&read, &lists.nurbs_refusals[i]) {
            (Ok(_), Some(words)) => Err(TheseusError::Shape(Complaint::Worded(words.clone()))),
            _ => read,
        };
        assert(unless_refused(read, lists.nurbs_refusals@[i as int], r));
        r
    } else {
        Err(TheseusError::Shape(Complaint::SupportKind { code, support: i }))
    }
}

/// Whether `k` is the first place of `x`.
pub open spec fn first_place(v: Seq<usize>, x: usize, k: int) -> bool {
    &&& 0 <= k < v.len()
    &&& v[k] == x
    &&& forall|j: int| 0 <= j < k ==> #[trigger] v[j] != x
}

/// The first place of `x`.
pub fn find_first(v: &Vec<usize>, x: usize) -> (r: Option<usize>)
    ensures
        match r {
            Some(k) => first_place(v@, x, k as int),
            None => !v@.contains(x),
        },
{
    for k in 0..v.len()
        invariant
            forall|j: int| 0 <= j < k ==> #[trigger] v@[j] != x,
    {
        if v[k] == x {
            return Some(k);
        }
    }
    None
}

/// Whether all entries differ.
pub fn all_differ(v: &Vec<usize>) -> (r: bool)
    ensures
        r == v@.no_duplicates(),
{
    for i in 0..v.len()
        invariant
            forall|a: int, b: int| 0 <= a < i && 0 <= b < v@.len() && a != b ==> v@[a] != v@[b],
    {
        for j in i + 1..v.len()
            invariant
                i < v@.len(),
                forall|a: int, b: int|
                    0 <= a < i && 0 <= b < v@.len() && a != b ==> v@[a] != v@[b],
                forall|b: int| i < b < j ==> v@[i as int] != #[trigger] v@[b],
        {
            if v[i] == v[j] {
                return false;
            }
        }
        proof {
            assert forall|b: int| 0 <= b < v@.len() && b != i implies v@[i as int] != v@[b] by {
                if b < i {
                    assert(v@[b] != v@[i as int]);
                }
            }
        }
    }
    true
}

/// Whether every support is a fixed node.
pub open spec fn all_fixed_nodes(nodes: Seq<usize>, fixed: Seq<usize>) -> bool {
    forall|k: int| 0 <= k < nodes.len() ==> fixed.contains(#[trigger] nodes[k])
}

/// Whether `s` is support `i`, which starts at its fixed position.
pub open spec fn support_matches(
    s: VariableSupport,
    lists: SupportLists,
    fixed: Seq<usize>,
    positions: Grid,
    i: int,
) -> bool {
    &&& s.node_index == lists.nodes@[i]
    &&& s.saturation_lambda == lists.lambda(i)
    &&& finite_positive(s.saturation_lambda)
    &&& kind_outcome(lists, i, Ok(s.kind))
    &&& exists|row: int|
        {
            &&& #[trigger] first_place(fixed, lists.nodes@[i], row)
            &&& forall|d: int|
                0 <= d < 3 ==> #[trigger] s.reference_position@[d] == positions.at(row, d)
        }
}

/// Whether `e` is the complaint that is due about support `i`.
pub open spec fn support_refused(lists: SupportLists, i: int, e: TheseusError) -> bool {
    if !finite_positive(lists.lambda(i)) {
        e == TheseusError::Shape(Complaint::SupportSaturation { support: i as usize })
    } else {
        kind_outcome(lists, i, Err(e))
    }
}

/// Whether `r` holds the supports that the lists describe, or the first complaint.
pub open spec fn supports_outcome(
    lists: SupportLists,
    fixed: Seq<usize>,
    positions: Grid,
    r: Result<Vec<VariableSupport>, TheseusError>,
) -> bool {
    let nodes = lists.nodes@;
    match r {
        Ok(s) => {
            &&& all_fixed_nodes(nodes, fixed)
            &&& nodes.no_duplicates()
            &&& s@.len() == nodes.len()
            &&& forall|i: int|
                0 <= i < nodes.len() ==> support_matches(#[trigger] s@[i], lists, fixed, positions, i)
        },
        Err(e) => {
            ||| exists|k: int|
                {
                    &&& 0 <= k < nodes.len()
                    &&& !fixed.contains(#[trigger] nodes[k])
                    &&& forall|j: int| 0 <= j < k ==> fixed.contains(#[trigger] nodes[j])
                    &&& e == TheseusError::Shape(
                        Complaint::SupportNotFixed { node: nodes[k] },
                    )
                }
            ||| all_fixed_nodes(nodes, fixed) && !nodes.no_duplicates() && e
                == TheseusError::Shape(Complaint::SupportsNotUnique)
            ||| all_fixed_nodes(nodes, fixed) && nodes.no_duplicates() && exists|
                i: int,
                before: Seq<VariableSupport>,
            |
                {
                    &&& 0 <= i < nodes.len()
                    &&& before.len() == i
                    &&& #[trigger] first_supports(before, lists, fixed, positions)
                    &&& #[trigger] support_refused(lists, i, e)
                }
        },
    }
}

/// Whether these are the first supports that the lists describe.
pub open spec fn first_supports(
    s: Seq<VariableSupport>,
    lists: SupportLists,
    fixed: Seq<usize>,
    positions: Grid,
) -> bool {
    forall|i: int|
        0 <= i < s.len() ==> support_matches(#[trigger] s[i], lists, fixed, positions, i)
}

/// The supports that the lists describe.
///
/// Supports must be fixed nodes, each at most once; they start at their fixed positions.
pub fn build_supports(lists: &SupportLists, fixed: &Vec<usize>, positions: &Array2) -> (r: Result<
    Vec<VariableSupport>,
    TheseusError,
>)
    requires
        lists.sized(),
        positions@.rows == fixed@.len(),
        positions@.cols == 3,
    ensures
        supports_outcome(*lists, fixed@, positions@, r),
{
    let n: usize = lists.nodes.len();
    for k in 0..n
        invariant
            n == lists.nodes@.len(),
            forall|j: int| 0 <= j < k ==> fixed@.contains(#[trigger] lists.nodes@[j]),
    {
        let node: usize = lists.nodes[k];
        match find_first(fixed, node) {
            Some(place) => {
                assert(fixed@[place as int] == node);
            },
            None => {
                assert(!fixed@.contains(lists.nodes@[k as int]));
                return Err(TheseusError::Shape(Complaint::SupportNotFixed { node }));
            },
        }
    }
    if !all_differ(&lists.nodes) {
        return Err(TheseusError::Shape(Complaint::SupportsNotUnique));
    }
    let mut supports: Vec<VariableSupport> = Vec::new();
    for i in 0..n
        invariant
            n == lists.nodes@.len(),
            lists.sized(),
            positions@.rows == fixed@.len(),
            positions@.cols == 3,
            all_fixed_nodes(lists.nodes@, fixed@),
            lists.nodes@.no_duplicates(),
            supports@.len() == i,
            first_supports(supports@, *lists, fixed@, positions@),
    {
        let node: usize = lists.nodes[i];
        let saturation_lambda = match &lists.lambdas {
            Some(l) => l[i],
            None => Real { bits: ONE },
        };
        if !saturation_lambda.is_finite() || saturation_lambda.le(Real { bits: ZERO }) {
            let e = TheseusError::Shape(Complaint::SupportSaturation { support: i });
            assert(first_supports(supports@, *lists, fixed@, positions@));
            assert(support_refused(*lists, i as int, e));
            return Err(e);
        }
        let row: usize = match find_first(fixed, node) {
            Some(row) => row,
            None => {
                assert(fixed@.contains(lists.nodes@[i as int]));
                0
            },
        };
        proof {
            assert(fixed@.contains(lists.nodes@[i as int]));
            assert(first_place(fixed@, node, row as int));
        }
        let reference_position = [
            positions.cell(row, 0),
            positions.cell(row, 1),
            positions.cell(row, 2),
        ];
        match support_kind(lists, i) {
            Ok(kind) => {
                let s = VariableSupport {
                    node_index: node,
                    reference_position,
                    saturation_lambda,
                    kind,
                };
                let ghost before = supports@;
                proof {
                    assert forall|d: int| 0 <= d < 3 implies #[trigger] s.reference_position@[d]
                        == positions@.at(row as int, d) by {
                        if d == 0 {
                        } else if d == 1 {
                        } else {
                            assert(d == 2);
                        }
                    }
                    assert(support_matches(s, *lists, fixed@, positions@, i as int));
                }
                supports.push(s);
                proof {
                    assert forall|k: int| 0 <= k < supports@.len() implies support_matches(
                        #[trigger] supports@[k],
                        *lists,
                        fixed@,
                        positions@,
                        k,
                    ) by {
                        if k < i {
                            assert(supports@[k] == before[k]);
                        }
                    }
                }
            },
            Err(e) => {
                assert(first_supports(supports@, *lists, fixed@, positions@));
                assert(support_refused(*lists, i as int, e));
                return Err(e);
            },
        }
    }
    Ok(supports)
}

} // verus!
