//! Editor gizmos: the kinds of gizmo and how the gizmos of a frame are
//! grouped into one batch per kind for drawing.
use core::ops::Range;
use vstd::prelude::*;

verus! {

/// The shape a gizmo is drawn as.
#[derive(Copy, Clone, Debug, PartialEq, Eq, Structural)]
pub enum GizzmoType {
    Box,
    Sphere,
    Arrow,
}

/// The gizmos of `items` of kind `ty`, in order.
pub open spec fn of_type<T>(items: Seq<(T, GizzmoType)>, ty: GizzmoType) -> Seq<T>
    decreases items.len(),
{
    if items.len() == 0 {
        seq![]
    } else {
        let last = items.last();
        of_type(items.drop_last(), ty) + if last.1 == ty {
            seq![last.0]
        } else {
            seq![]
        }
    }
}

/// The gizmos of a frame grouped by kind: boxes, then spheres, then
/// arrows, each kind's gizmos at its range of `pending`.
pub struct GizmoBatches<T> {
    pub pending: Vec<T>,
    pub aabb_range: Range<usize>,
    pub sphere_range: Range<usize>,
    pub arrow_range: Range<usize>,
}

impl<T: Copy> GizmoBatches<T> {
    /// No gizmos.
    pub fn new() -> (b: Self)
        ensures
            b.pending@.len() == 0,
            b.aabb_range.start == 0 && b.aabb_range.end == 0,
            b.sphere_range.start == 0 && b.sphere_range.end == 0,
            b.arrow_range.start == 0 && b.arrow_range.end == 0,
    {
        GizmoBatches { pending: Vec::new(), aabb_range: 0..0, sphere_range: 0..0, arrow_range: 0..0 }
    }

    /// Appends the gizmos of `items` of kind `ty`, in order.
    fn push_kind(&mut self, items: &Vec<(T, GizzmoType)>, ty: GizzmoType)
        requires
            old(self).pending@.len() + of_type(items@, ty).len() <= usize::MAX,
        ensures
            final(self).pending@ == old(self).pending@ + of_type(items@, ty),
            final(self).aabb_range == old(self).aabb_range,
            final(self).sphere_range == old(self).sphere_range,
            final(self).arrow_range == old(self).arrow_range,
    {
        let ghost start = self.pending@;
        let mut i: usize = 0;
        while i < items.len()
            invariant
                i <= items@.len(),
                self.pending@ == start + of_type(items@.subrange(0, i as int), ty),
                start.len() + of_type(items@, ty).len() <= usize::MAX,
                self.aabb_range == old(self).aabb_range,
                self.sphere_range == old(self).sphere_range,
                self.arrow_range == old(self).arrow_range,
            decreases items@.len() - i,
        {
            let (g, t) = items[i];
            proof {
                let s = items@.subrange(0, i + 1);
                assert(s.drop_last() =~= items@.subrange(0, i as int));
                assert(s.last() == items@[i as int]);
                lemma_of_type_prefix_len(items@, i + 1, items@.len() as int, ty);
                assert(items@.subrange(0, items@.len() as int) =~= items@);
            }
            if t == ty {
                self.pending.push(g);
                proof {
                    assert(self.pending@ =~= start + of_type(items@.subrange(0, i + 1), ty));
                }
            } else {
                proof {
                    assert(self.pending@ =~= start + of_type(items@.subrange(0, i + 1), ty));
                }
            }
            i = i + 1;
        }
        proof {
            assert(items@.subrange(0, items@.len() as int) =~= items@);
        }
    }

    /// Takes the gizmos queued during the frame: the batches become the
    /// boxes, spheres and arrows of `gizzmos`, each in queue order, and the
    /// queue is emptied.
    pub fn extract_gizzmos(&mut self, gizzmos: &mut Vec<(T, GizzmoType)>)
        ensures
            ({
                let boxes = of_type(old(gizzmos)@, GizzmoType::Box);
                let spheres = of_type(old(gizzmos)@, GizzmoType::Sphere);
                let arrows = of_type(old(gizzmos)@, GizzmoType::Arrow);
                &&& final(self).pending@ == boxes + spheres + arrows
                &&& final(self).aabb_range.start == 0
                &&& final(self).aabb_range.end == boxes.len()
                &&& final(self).sphere_range.start == boxes.len()
                &&& final(self).sphere_range.end == boxes.len() + spheres.len()
                &&& final(self).arrow_range.start == boxes.len() + spheres.len()
                &&& final(self).arrow_range.end == boxes.len() + spheres.len() + arrows.len()
            }),
            final(gizzmos)@.len() == 0,
    {
        self.pending.clear();
        let n = gizzmos.len();
        proof {
            lemma_batches_partition(gizzmos@);
            assert(n == gizzmos@.len());
        }
        let start: usize = 0;
        self.push_kind(gizzmos, GizzmoType::Box);
        let after_aabb = self.pending.len();
        self.aabb_range = start..after_aabb;
        self.push_kind(gizzmos, GizzmoType::Sphere);
        let after_sphere = self.pending.len();
        self.sphere_range = after_aabb..after_sphere;
        self.push_kind(gizzmos, GizzmoType::Arrow);
        self.arrow_range = after_sphere..self.pending.len();
        gizzmos.clear();
    }
}

/// The gizmos of a kind among the first `i` queued are at most those among
/// the first `j`, for `i <= j`.
proof fn lemma_of_type_prefix_len<T>(items: Seq<(T, GizzmoType)>, i: int, j: int, ty: GizzmoType)
    requires
        0 <= i <= j <= items.len(),
    ensures
        of_type(items.subrange(0, i), ty).len() <= of_type(items.subrange(0, j), ty).len(),
    decreases j - i,
{
    if i < j {
        lemma_of_type_prefix_len(items, i, j - 1, ty);
        assert(items.subrange(0, j).drop_last() =~= items.subrange(0, j - 1));
    }
}

/// Every queued gizmo lands in exactly one batch: the batches together
/// hold as many gizmos as the queue.
pub proof fn lemma_batches_partition<T>(items: Seq<(T, GizzmoType)>)
    ensures
        of_type(items, GizzmoType::Box).len() + of_type(items, GizzmoType::Sphere).len() + of_type(
            items,
            GizzmoType::Arrow,
        ).len() == items.len(),
    decreases items.len(),
{
    if items.len() > 0 {
        lemma_batches_partition(items.drop_last());
    }
}

} // verus!
