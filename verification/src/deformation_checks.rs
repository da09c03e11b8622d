//! The index and shape checks of the CPU deformation reference: attribute
//! arrays must line up, every active morph must have a delta for each
//! vertex, and a skinned vertex may only name joints of the palette.
use vstd::prelude::*;

verus! {

/// Why the reference refused to deform.
#[derive(Debug, Clone, Copy, PartialEq, Eq, Structural)]
pub enum DeformationReferenceError {
    AttributeCountMismatch { positions: usize, normals: usize, joints: usize, weights: usize },
    JointOutOfRange { vertex: usize, joint: u16, bones: usize },
    MorphDeltaOutOfRange { vertex: usize, delta: usize, deltas: usize },
    NonFiniteInput,
}

/// The attribute arrays line up with the positions, or the mismatch.
pub fn check_attribute_counts(positions: usize, normals: usize, joints: usize, weights: usize) -> (r: Result<(), DeformationReferenceError>)
    ensures
        r is Ok <==> (normals == positions && joints == positions && weights == positions),
        r is Err ==> r == Err::<(), DeformationReferenceError>(
            DeformationReferenceError::AttributeCountMismatch { positions, normals, joints, weights },
        ),
{
    if normals != positions || joints != positions || weights != positions {
        Err(DeformationReferenceError::AttributeCountMismatch { positions, normals, joints, weights })
    } else {
        Ok(())
    }
}

/// The first active morph (by its delta base) that has no delta for `vertex`.
pub open spec fn first_missing_delta(bases: Seq<usize>, vertex: usize, deltas: usize) -> Option<int>
    decreases bases.len(),
{
    if bases.len() == 0 {
        None
    } else {
        match first_missing_delta(bases.drop_last(), vertex, deltas) {
            Some(k) => Some(k),
            None => if bases.last() + vertex >= deltas { Some(bases.len() - 1) } else { None },
        }
    }
}

/// The first of a vertex's four joints outside a palette of `bones`.
pub open spec fn first_bad_joint(joints: [u16; 4], bones: usize) -> Option<u16> {
    if joints[0] as usize >= bones {
        Some(joints[0])
    } else if joints[1] as usize >= bones {
        Some(joints[1])
    } else if joints[2] as usize >= bones {
        Some(joints[2])
    } else if joints[3] as usize >= bones {
        Some(joints[3])
    } else {
        None
    }
}

/// The index checks of one vertex, in the order the reference meets them:
/// each active morph's delta (at `base + vertex`) must exist; then, when the
/// vertex is skinned, each of its joints must be in the palette.
pub open spec fn vertex_check_spec(vertex: usize, bases: Seq<usize>, deltas: usize, joints: [u16; 4], bones: usize, skinned: bool) -> Result<(), DeformationReferenceError> {
    match first_missing_delta(bases, vertex, deltas) {
        Some(k) => Err(DeformationReferenceError::MorphDeltaOutOfRange { vertex, delta: (bases[k] + vertex) as usize, deltas }),
        None => if skinned {
            match first_bad_joint(joints, bones) {
                Some(j) => Err(DeformationReferenceError::JointOutOfRange { vertex, joint: j, bones }),
                None => Ok(()),
            }
        } else {
            Ok(())
        },
    }
}

/// Checks the indices one vertex uses. `bases` are the delta bases of the
/// active morphs, in order; `skinned` says whether the vertex is blended
/// from the palette (a non-empty palette and a positive weight sum).
pub fn check_vertex_indices(vertex: usize, bases: &Vec<usize>, deltas: usize, joints: [u16; 4], bones: usize, skinned: bool) -> (r: Result<(), DeformationReferenceError>)
    requires
        forall|k: int| 0 <= k < bases@.len() ==> bases@[k] + vertex <= usize::MAX,
    ensures
        r == vertex_check_spec(vertex, bases@, deltas, joints, bones, skinned),
{
    let mut k: usize = 0;
    while k < bases.len()
        invariant
            k <= bases@.len(),
            forall|q: int| 0 <= q < bases@.len() ==> bases@[q] + vertex <= usize::MAX,
            first_missing_delta(bases@.take(k as int), vertex, deltas) is None,
        decreases bases@.len() - k,
    {
        proof {
            assert(bases@.take(k + 1).drop_last() =~= bases@.take(k as int));
        }
        let index = bases[k] + vertex;
        if index >= deltas {
            proof {
                let t = bases@.take(k + 1);
                assert(t.last() == bases@[k as int]);
                assert(first_missing_delta(t, vertex, deltas) == Some(k as int));
                lemma_missing_prefix(bases@, k as int + 1, vertex, deltas);
            }
            return Err(DeformationReferenceError::MorphDeltaOutOfRange { vertex, delta: index, deltas });
        }
        k += 1;
    }
    proof {
        assert(bases@.take(bases@.len() as int) =~= bases@);
    }
    if skinned {
        let mut q: usize = 0;
        while q < 4
            invariant
                q <= 4,
                skinned,
                first_missing_delta(bases@, vertex, deltas) is None,
                forall|p: int| 0 <= p < q ==> (joints[p] as usize) < bones,
            decreases 4 - q,
        {
            if joints[q] as usize >= bones {
                proof {
                    assert(first_bad_joint(joints, bones) == Some(joints[q as int]));
                }
                return Err(DeformationReferenceError::JointOutOfRange { vertex, joint: joints[q], bones });
            }
            q += 1;
        }
    }
    Ok(())
}

/// A miss found in a prefix is the first miss overall.
proof fn lemma_missing_prefix(bases: Seq<usize>, k: int, vertex: usize, deltas: usize)
    requires
        0 <= k <= bases.len(),
        first_missing_delta(bases.take(k), vertex, deltas) is Some,
    ensures
        first_missing_delta(bases, vertex, deltas) == first_missing_delta(bases.take(k), vertex, deltas),
    decreases bases.len() - k,
{
    if k < bases.len() {
        assert(bases.take(k + 1).drop_last() =~= bases.take(k));
        lemma_missing_prefix(bases, k + 1, vertex, deltas);
    } else {
        assert(bases.take(k) =~= bases);
    }
}

} // verus!
