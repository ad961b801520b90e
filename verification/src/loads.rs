//! Loads that move with the geometry.

use crate::double::Real;
use vstd::prelude::*;

verus! {

/// Faces, each as the list of its nodes in order.
#[derive(Debug)]
pub struct FaceTopology {
    pub faces: Vec<Vec<usize>>,
}

/// The weight of the members.
#[derive(Debug)]
pub enum SelfWeightParams {
    /// Mass per length is given for every edge.
    Prescribed {
        linear_densities: Vec<Real>,
        gravity: [Real; 3],
        max_iters: usize,
        tolerance: Real,
        relaxation: Real,
    },
    /// Mass per length follows from the force: the area is the force over `sigma`.
    Sizing {
        rho: Real,
        sigma: Real,
        gravity: [Real; 3],
        max_iters: usize,
        tolerance: Real,
        relaxation: Real,
    },
}

/// Pressure on faces.
#[derive(Debug)]
pub enum PressureParams {
    /// Along the normals.
    Normal {
        face_topology: FaceTopology,
        pressures: Vec<Real>,
        max_iters: usize,
        tolerance: Real,
        relaxation: Real,
    },
    /// Growing with the depth below a datum.
    Hydrostatic {
        face_topology: FaceTopology,
        rho_fluid: Real,
        g_magnitude: Real,
        z_datum: Real,
        up_direction: [Real; 3],
        max_iters: usize,
        tolerance: Real,
        relaxation: Real,
    },
    /// Along one direction, on the projected area.
    Directional {
        face_topology: FaceTopology,
        pressures: Vec<Real>,
        direction: [Real; 3],
        max_iters: usize,
        tolerance: Real,
        relaxation: Real,
    },
}

/// Whether offsets divide a list of so many vertices: there is one more offset than faces,
/// they do not decrease, and none lies beyond the list.
pub open spec fn offsets_divide(offsets: Seq<usize>, vertices: nat) -> bool {
    &&& offsets.len() >= 1
    &&& forall|f: int| 0 <= f < offsets.len() - 1 ==> #[trigger] offsets[f] <= offsets[f + 1]
    &&& forall|f: int| 0 <= f < offsets.len() ==> #[trigger] offsets[f] <= vertices
}

/// Whether offsets divide a list of so many vertices.
pub fn face_offsets_divide(offsets: &Vec<usize>, vertices: usize) -> (r: bool)
    ensures
        r == offsets_divide(offsets@, vertices as nat),
{
    if offsets.len() < 1 {
        return false;
    }
    for f in 0..offsets.len()
        invariant
            offsets@.len() >= 1,
            forall|k: int|
                0 <= k < f && k < offsets@.len() - 1 ==> #[trigger] offsets@[k] <= offsets@[k + 1],
            forall|k: int| 0 <= k < f ==> #[trigger] offsets@[k] <= vertices,
    {
        if offsets[f] > vertices {
            return false;
        }
        if f + 1 < offsets.len() {
            if offsets[f] > offsets[f + 1] {
                return false;
            }
        }
    }
    true
}

/// Divides a list of vertices into faces.
pub fn split_faces(offsets: &Vec<usize>, vertices: &Vec<usize>) -> (r: FaceTopology)
    requires
        offsets_divide(offsets@, vertices@.len()),
    ensures
        r.faces@.len() == offsets@.len() - 1,
        forall|f: int|
            0 <= f < r.faces@.len() ==> (#[trigger] r.faces@[f])@ == vertices@.subrange(
                offsets@[f] as int,
                offsets@[f + 1] as int,
            ),
{
    let mut faces: Vec<Vec<usize>> = Vec::new();
    for f in 0..offsets.len() - 1
        invariant
            offsets_divide(offsets@, vertices@.len()),
            faces@.len() == f,
            forall|k: int|
                0 <= k < f ==> (#[trigger] faces@[k])@ == vertices@.subrange(
                    offsets@[k] as int,
                    offsets@[k + 1] as int,
                ),
    {
        let start: usize = offsets[f];
        let end: usize = offsets[f + 1];
        assert(offsets@[f + 1] <= vertices@.len());
        assert(offsets@[f as int] <= offsets@[f + 1]);
        let mut face: Vec<usize> = Vec::new();
        for k in start..end
            invariant
                start <= end <= vertices@.len(),
                face@ == vertices@.subrange(start as int, k as int),
        {
            face.push(vertices[k]);
            assert(face@ =~= vertices@.subrange(start as int, k as int + 1));
        }
        faces.push(face);
    }
    FaceTopology { faces }
}

/// The faces together hold the vertices between the first and the last offset, each once
/// and in order.
pub proof fn faces_cover_the_vertices(offsets: Seq<usize>, vertices: Seq<usize>, faces: Seq<Seq<usize>>)
    requires
        offsets_divide(offsets, vertices.len()),
        faces.len() == offsets.len() - 1,
        forall|f: int|
            0 <= f < faces.len() ==> #[trigger] faces[f] == vertices.subrange(
                offsets[f] as int,
                offsets[f + 1] as int,
            ),
    ensures
        faces.flatten() == vertices.subrange(
            offsets[0] as int,
            offsets[offsets.len() - 1] as int,
        ),
    decreases faces.len(),
{
    let n = faces.len() as int;
    if n == 0 {
        assert(faces.flatten() =~= Seq::<usize>::empty());
        assert(vertices.subrange(offsets[0] as int, offsets[0] as int) =~= Seq::<usize>::empty());
    } else {
        let fewer = faces.drop_last();
        let before = offsets.drop_last();
        assert(offsets_divide(before, vertices.len())) by {
            assert forall|f: int| 0 <= f < before.len() - 1 implies #[trigger] before[f]
                <= before[f + 1] by {
                assert(offsets[f] <= offsets[f + 1]);
            }
        }
        assert forall|f: int| 0 <= f < fewer.len() implies #[trigger] fewer[f] == vertices.subrange(
            before[f] as int,
            before[f + 1] as int,
        ) by {
            assert(faces[f] == vertices.subrange(offsets[f] as int, offsets[f + 1] as int));
        }
        faces_cover_the_vertices(before, vertices, fewer);
        faces.lemma_flatten_and_flatten_alt_are_equivalent();
        fewer.lemma_flatten_and_flatten_alt_are_equivalent();
        assert(faces.flatten() == fewer.flatten() + faces.last());
        lemma_first_is_least(before);
        assert(offsets[n - 1] <= offsets[n]);
        assert(vertices.subrange(offsets[0] as int, offsets[n - 1] as int) + vertices.subrange(
            offsets[n - 1] as int,
            offsets[n] as int,
        ) =~= vertices.subrange(offsets[0] as int, offsets[n] as int));
    }
}

proof fn lemma_first_is_least(offsets: Seq<usize>)
    requires
        offsets.len() >= 1,
        forall|f: int| 0 <= f < offsets.len() - 1 ==> #[trigger] offsets[f] <= offsets[f + 1],
    ensures
        offsets[0] <= offsets[offsets.len() - 1],
    decreases offsets.len(),
{
    if offsets.len() > 1 {
        let before = offsets.drop_last();
        assert forall|f: int| 0 <= f < before.len() - 1 implies #[trigger] before[f] <= before[f
            + 1] by {
            assert(offsets[f] <= offsets[f + 1]);
        }
        lemma_first_is_least(before);
        assert(offsets[offsets.len() - 2] <= offsets[offsets.len() - 2 + 1]);
    }
}

} // verus!
