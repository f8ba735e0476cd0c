//! Index buffers of the UI meshes: each quad is drawn as two triangles over
//! the four vertices that were pushed for it.
use vstd::prelude::*;

verus! {

/// Every index of `indices` names one of the first `vertex_count` vertices.
pub open spec fn indices_in_range(indices: Seq<u32>, vertex_count: int) -> bool {
    forall|i: int| 0 <= i < indices.len() ==> (#[trigger] indices[i] as int) < vertex_count
}

/// The two triangles of the quad whose corners are the vertices `first`,
/// `first + 1`, `first + 2` and `first + 3`, in order around the quad.
pub open spec fn quad_indices(first: u32) -> Seq<u32> {
    seq![
        first,
        (first + 1) as u32,
        (first + 2) as u32,
        first,
        (first + 3) as u32,
        (first + 2) as u32,
    ]
}

/// Appends the two triangles of the quad whose four corners are the
/// vertices from `first` on. Where every index named one of the `first`
/// vertices before, every index names one of the `first + 4` vertices
/// after.
pub fn push_quad(indices: &mut Vec<u32>, first: u32)
    requires
        first <= u32::MAX - 3,
    ensures
        final(indices)@ == old(indices)@ + quad_indices(first),
        indices_in_range(old(indices)@, first as int) ==> indices_in_range(
            final(indices)@,
            first + 4,
        ),
{
    let ghost before = indices@;
    indices.push(first);
    indices.push(first + 1);
    indices.push(first + 2);
    indices.push(first);
    indices.push(first + 3);
    indices.push(first + 2);
    assert(indices@ =~= before + quad_indices(first));
    assert(indices_in_range(before, first as int) ==> indices_in_range(indices@, first + 4)) by {
        if indices_in_range(before, first as int) {
            assert forall|i: int| 0 <= i < indices@.len() implies (#[trigger] indices@[i] as int)
                < first + 4 by {
                if i < before.len() {
                    assert(indices@[i] == before[i]);
                }
            }
        }
    }
}

} // verus!
