//! The docking tree of the editor: every leaf is a window slot, every inner
//! node splits its area between two subtrees.
use std::collections::HashMap;
use vstd::prelude::*;

verus! {

broadcast use vstd::std_specs::hash::group_hash_axioms;

/// The window slot that stands for the viewport, which is never a real
/// window.
pub const VIEWPORT_WINDOW: u32 = 0xffff_ffff;

/// The bit pattern of the single precision float `0.5`, the share that a
/// freshly docked split gives to each side.
pub const EVEN_SPLIT_BITS: u32 = 0x3f00_0000;

/// The axis along which a node splits its area.
#[derive(Clone, Copy, PartialEq, Eq, Structural, Debug)]
pub enum Split {
    Horizontal,
    Vertical,
}

impl Split {
    /// The byte that stands for this axis.
    pub fn to_bytes(&self) -> (b: u8)
        ensures
            b == (match self {
                Split::Horizontal => 0u8,
                Split::Vertical => 1u8,
            }),
    {
        match self {
            Split::Horizontal => 0,
            Split::Vertical => 1,
        }
    }
}

/// Where a window dropped on a leaf goes, from the drop zones of the leaf
/// that the pointer is in: at the right or bottom edge the window goes
/// after the leaf, at the left or top edge before it (`true`); the top and
/// bottom edges split vertically, the others horizontally. `None` when the
/// pointer is in no drop zone.
pub fn dock_placement(top: bool, bottom: bool, left: bool, right: bool) -> (r: Option<(Split, bool)>)
    ensures
        r == if right || bottom || left || top {
            Some(
                (
                    if bottom || top {
                        Split::Vertical
                    } else {
                        Split::Horizontal
                    },
                    !(right || bottom),
                ),
            )
        } else {
            None
        },
{
    let split = if bottom || top {
        Split::Vertical
    } else {
        Split::Horizontal
    };
    if right || bottom {
        Some((split, false))
    } else if left || top {
        Some((split, true))
    } else {
        None
    }
}

/// The path to a divider is a bit set: bit `d` is set when the path goes
/// to the left (first) child at depth `d`.
pub open spec fn goes_left(path: u64, depth: u64) -> bool {
    (path >> depth) & 1 == 1
}

/// Extends a path by going left at `depth`.
pub fn path_go_left(path: u64, depth: u32) -> (p: u64)
    requires
        depth < 64,
    ensures
        p == path | (1u64 << depth),
        goes_left(p, depth as u64),
        forall|d: u64| d < 64 && d != depth ==> goes_left(p, d) == goes_left(path, d),
{
    let p = path | (1u64 << depth);
    proof {
        let dd = depth as u64;
        assert((p >> dd) & 1 == 1) by (bit_vector)
            requires
                p == path | (1u64 << dd),
                dd < 64,
        ;
        assert forall|d: u64| d < 64 && d != dd implies goes_left(p, d) == goes_left(path, d) by {
            assert(((p >> d) & 1) == ((path >> d) & 1)) by (bit_vector)
                requires
                    p == path | (1u64 << dd),
                    dd < 64,
                    d < 64,
                    d != dd,
            ;
        }
    }
    p
}

/// Whether a path goes to the left child at `depth`.
pub fn path_goes_left(path: u64, depth: u32) -> (b: bool)
    requires
        depth < 64,
    ensures
        b == goes_left(path, depth as u64),
{
    let b = ((path >> depth) & 1) > 0;
    proof {
        let dd = depth as u64;
        assert(((path >> depth) & 1 > 0) == ((path >> dd) & 1 == 1)) by (bit_vector)
            requires
                dd == depth as u64,
                depth < 64,
        ;
    }
    b
}

/// A docking tree. `extend_bits` is the bit pattern of the float share of the
/// area that goes to `left` (a value the tree carries but never reads).
#[derive(Debug)]
pub enum DockingNode {
    Leaf { window: u32 },
    Node { split: Split, extend_bits: u32, left: Box<DockingNode>, right: Box<DockingNode> },
}

impl DockingNode {
    /// The window slots at the leaves, from left to right.
    pub open spec fn leaves(self) -> Seq<u32>
        decreases self,
    {
        match self {
            DockingNode::Leaf { window } => seq![window],
            DockingNode::Node { left, right, .. } => left.leaves() + right.leaves(),
        }
    }

    /// The tree without the leaves that hold `w`, where an inner node that
    /// loses one side is replaced by its other side; `None` when no leaf
    /// is left.
    pub open spec fn pruned(self, w: u32) -> Option<DockingNode>
        decreases self,
    {
        match self {
            DockingNode::Leaf { window } => if window == w {
                None
            } else {
                Some(self)
            },
            DockingNode::Node { split, extend_bits, left, right } => match (
                left.pruned(w),
                right.pruned(w),
            ) {
                (None, None) => None,
                (None, Some(r)) => Some(r),
                (Some(l), None) => Some(l),
                (Some(l), Some(r)) => Some(
                    DockingNode::Node { split, extend_bits, left: Box::new(l), right: Box::new(r) },
                ),
            },
        }
    }

    /// The tree with every leaf's slot renamed by `m` (slots that `m` does
    /// not hold stay).
    pub open spec fn remapped(self, m: Map<u32, u32>) -> DockingNode
        decreases self,
    {
        match self {
            DockingNode::Leaf { window } => DockingNode::Leaf {
                window: if m.contains_key(window) {
                    m[window]
                } else {
                    window
                },
            },
            DockingNode::Node { split, extend_bits, left, right } => DockingNode::Node {
                split,
                extend_bits,
                left: Box::new(left.remapped(m)),
                right: Box::new(right.remapped(m)),
            },
        }
    }

    /// Whether some leaf holds `window`.
    pub fn contains(&self, window: u32) -> (r: bool)
        ensures
            r == self.leaves().contains(window),
        decreases self,
    {
        match self {
            DockingNode::Leaf { window: w } => {
                assert(self.leaves()[0] == *w);
                *w == window
            },
            DockingNode::Node { left, right, .. } => {
                let l = left.contains(window);
                let r = right.contains(window);
                proof {
                    lemma_contains_concat(left.leaves(), right.leaves(), window);
                }
                l || r
            },
        }
    }

    /// Removes the leaves that hold `window`. Returns whether every leaf held
    /// it; then the tree stays as it was (a root leaf is not removed).
    pub fn undock(&mut self, window: u32) -> (empty: bool)
        ensures
            empty == (old(self).pruned(window) is None),
            empty ==> *final(self) == *old(self),
            !empty ==> Some(*final(self)) == old(self).pruned(window),
    {
        let mut tree = DockingNode::Leaf { window: VIEWPORT_WINDOW };
        std::mem::swap(self, &mut tree);
        let (empty, tree) = Self::undock_tree(tree, window);
        *self = tree;
        empty
    }

    fn undock_tree(tree: DockingNode, window: u32) -> (r: (bool, DockingNode))
        ensures
            r.0 == (tree.pruned(window) is None),
            r.0 ==> r.1 == tree,
            !r.0 ==> Some(r.1) == tree.pruned(window),
        decreases tree,
    {
        match tree {
            DockingNode::Leaf { window: w } => (w == window, DockingNode::Leaf { window: w }),
            DockingNode::Node { split, extend_bits, left, right } => {
                let (left_empty, l) = Self::undock_tree(*left, window);
                let (right_empty, r) = Self::undock_tree(*right, window);
                if left_empty && right_empty {
                    (true, DockingNode::Node { split, extend_bits, left: Box::new(l), right: Box::new(r) })
                } else if left_empty {
                    (false, r)
                } else if right_empty {
                    (false, l)
                } else {
                    (false, DockingNode::Node { split, extend_bits, left: Box::new(l), right: Box::new(r) })
                }
            },
        }
    }

    /// Renames the window slot of every leaf by `map`.
    pub fn remap(self, map: &HashMap<u32, u32>) -> (r: Self)
        ensures
            r == self.remapped(map@),
            self is Leaf ==> r is Leaf,
            self is Node ==> r is Node && r->split == self->split && r->extend_bits == self->extend_bits,
            r.leaves().len() == self.leaves().len(),
        decreases self,
    {
        match self {
            DockingNode::Leaf { window: w } => {
                match map.get(&w) {
                    Some(new_w) => DockingNode::Leaf { window: *new_w },
                    None => DockingNode::Leaf { window: w },
                }
            },
            DockingNode::Node { split, extend_bits, left, right } => {
                let l = left.remap(map);
                let r = right.remap(map);
                DockingNode::Node { split, extend_bits, left: Box::new(l), right: Box::new(r) }
            },
        }
    }

    /// Replaces this leaf by an even split between `window` and the leaf:
    /// `window` comes first (left or top) when `before` holds.
    pub fn insert_beside(&mut self, window: u32, split: Split, before: bool)
        requires
            *old(self) is Leaf,
        ensures
            *final(self) == (if before {
                DockingNode::Node {
                    split,
                    extend_bits: EVEN_SPLIT_BITS,
                    left: Box::new(DockingNode::Leaf { window }),
                    right: Box::new(*old(self)),
                }
            } else {
                DockingNode::Node {
                    split,
                    extend_bits: EVEN_SPLIT_BITS,
                    left: Box::new(*old(self)),
                    right: Box::new(DockingNode::Leaf { window }),
                }
            }),
    {
        let mut root = DockingNode::Leaf { window: VIEWPORT_WINDOW };
        std::mem::swap(self, &mut root);
        let new_leaf = Box::new(DockingNode::Leaf { window });
        if before {
            *self = DockingNode::Node { split, extend_bits: EVEN_SPLIT_BITS, left: new_leaf, right: Box::new(root) };
        } else {
            *self = DockingNode::Node { split, extend_bits: EVEN_SPLIT_BITS, left: Box::new(root), right: new_leaf };
        }
    }
}

impl DockingNode {
    /// Docks `window` beside the leaf that `path[from..]` leads to (`true`
    /// for the left child); a path that does not end at a leaf changes
    /// nothing.
    pub fn dock_at(&mut self, path: &Vec<bool>, from: usize, window: u32, split: Split, before: bool)
        requires
            from <= path@.len(),
        ensures
            *final(self) == docked_at(
                *old(self),
                path@.subrange(from as int, path@.len() as int),
                window,
                split,
                before,
            ),
            from == path@.len() && *old(self) is Leaf ==> {
                &&& *final(self) is Node
                &&& final(self)->split == split
                &&& final(self)->extend_bits == EVEN_SPLIT_BITS
                &&& final(self).leaves() == if before {
                    seq![window] + old(self).leaves()
                } else {
                    old(self).leaves() + seq![window]
                }
            },
        decreases path@.len() - from,
    {
        proof {
            if from == path@.len() && *old(self) is Leaf {
                assert(path@.subrange(from as int, path@.len() as int) =~= Seq::<bool>::empty());
                lemma_dock_at_leaf_side(*old(self), window, split, before);
            }
        }
        let ghost rest = path@.subrange(from as int, path@.len() as int);
        if self.is_leaf() {
            if from == path.len() {
                self.insert_beside(window, split, before);
            }
            return;
        }
        if from == path.len() {
            return;
        }
        proof {
            assert(rest[0] == path@[from as int]);
            assert(rest.drop_first() =~= path@.subrange(from + 1, path@.len() as int));
        }
        match self {
            DockingNode::Node { left, right, .. } => {
                if path[from] {
                    left.dock_at(path, from + 1, window, split, before);
                } else {
                    right.dock_at(path, from + 1, window, split, before);
                }
            },
            DockingNode::Leaf { .. } => {},
        }
    }

    /// Whether the tree is a single leaf.
    pub fn is_leaf(&self) -> (r: bool)
        ensures
            r == (*self is Leaf),
    {
        match self {
            DockingNode::Leaf { .. } => true,
            DockingNode::Node { .. } => false,
        }
    }
}

impl Default for DockingNode {
    /// A tree that is only the viewport.
    fn default() -> (r: Self)
        ensures
            r == (DockingNode::Leaf { window: VIEWPORT_WINDOW }),
    {
        DockingNode::Leaf { window: VIEWPORT_WINDOW }
    }
}

/// A value is in a concatenation when it is in one of its parts.
pub proof fn lemma_contains_concat(a: Seq<u32>, b: Seq<u32>, w: u32)
    ensures
        (a + b).contains(w) == (a.contains(w) || b.contains(w)),
{
    if a.contains(w) {
        let i = choose|i: int| 0 <= i < a.len() && a[i] == w;
        assert((a + b)[i] == w);
    }
    if b.contains(w) {
        let i = choose|i: int| 0 <= i < b.len() && b[i] == w;
        assert((a + b)[a.len() + i] == w);
    }
    if (a + b).contains(w) {
        let i = choose|i: int| 0 <= i < (a + b).len() && (a + b)[i] == w;
        if i < a.len() {
            assert(a[i] == w);
        } else {
            assert(b[i - a.len()] == w);
        }
    }
}

/// Undocking a window keeps exactly the other leaves, in order; the whole
/// tree goes only when every leaf held the window.
pub proof fn lemma_pruned_leaves(t: DockingNode, w: u32)
    ensures
        t.pruned(w) is None <==> t.leaves().filter(|x: u32| x != w).len() == 0,
        t.pruned(w) matches Some(p) ==> p.leaves() == t.leaves().filter(|x: u32| x != w),
    decreases t,
{
    match t {
        DockingNode::Leaf { window } => {
            reveal_with_fuel(Seq::filter, 2);
            assert(t.leaves() == seq![window]);
            assert(seq![window].drop_last() =~= Seq::<u32>::empty());
            if window == w {
                assert(t.leaves().filter(|x: u32| x != w) =~= Seq::<u32>::empty());
            } else {
                assert(t.leaves().filter(|x: u32| x != w) =~= seq![window]);
            }
        },
        DockingNode::Node { split, extend_bits, left, right } => {
            lemma_pruned_leaves(*left, w);
            lemma_pruned_leaves(*right, w);
            Seq::filter_distributes_over_add(left.leaves(), right.leaves(), |x: u32| x != w);
        },
    }
}

/// After undocking a window, no leaf holds it (unless every leaf did and
/// the tree stayed).
pub proof fn lemma_undocked_not_contained(t: DockingNode, w: u32)
    requires
        t.pruned(w) is Some,
    ensures
        !t.pruned(w).unwrap().leaves().contains(w),
{
    lemma_pruned_leaves(t, w);
    let p = t.pruned(w).unwrap();
    if p.leaves().contains(w) {
        let i = choose|i: int| 0 <= i < p.leaves().len() && p.leaves()[i] == w;
        let f = t.leaves().filter(|x: u32| x != w);
        assert(f[i] == w);
        t.leaves().lemma_filter_pred(|x: u32| x != w, i);
    }
}

/// Renaming the slots renames every leaf, in order.
pub proof fn lemma_remapped_leaves(t: DockingNode, m: Map<u32, u32>)
    ensures
        t.remapped(m).leaves() == t.leaves().map_values(
            |w: u32|
                if m.contains_key(w) {
                    m[w]
                } else {
                    w
                },
        ),
    decreases t,
{
    match t {
        DockingNode::Leaf { window } => {
            assert(t.remapped(m).leaves() =~= t.leaves().map_values(
                |w: u32|
                    if m.contains_key(w) {
                        m[w]
                    } else {
                        w
                    },
            ));
        },
        DockingNode::Node { split, extend_bits, left, right } => {
            lemma_remapped_leaves(*left, m);
            lemma_remapped_leaves(*right, m);
            assert(t.remapped(m).leaves() =~= t.leaves().map_values(
                |w: u32|
                    if m.contains_key(w) {
                        m[w]
                    } else {
                        w
                    },
            ));
        },
    }
}

/// Undocking a window right after docking it beside a leaf gives back the
/// leaf (when the leaf held another window).
pub proof fn lemma_dock_then_undock(leaf: DockingNode, window: u32, split: Split, before: bool)
    requires
        leaf matches DockingNode::Leaf { window: w } && w != window,
    ensures
        ({
            let docked = if before {
                DockingNode::Node {
                    split,
                    extend_bits: EVEN_SPLIT_BITS,
                    left: Box::new(DockingNode::Leaf { window }),
                    right: Box::new(leaf),
                }
            } else {
                DockingNode::Node {
                    split,
                    extend_bits: EVEN_SPLIT_BITS,
                    left: Box::new(leaf),
                    right: Box::new(DockingNode::Leaf { window }),
                }
            };
            &&& docked.pruned(window) == Some(leaf)
            &&& docked.leaves() == if before {
                seq![window] + leaf.leaves()
            } else {
                leaf.leaves() + seq![window]
            }
        }),
{
    let new_leaf = DockingNode::Leaf { window };
    assert(new_leaf.pruned(window) is None);
    assert(leaf.pruned(window) == Some(leaf));
    assert(new_leaf.leaves() == seq![window]);
    if before {
        let docked = DockingNode::Node {
            split,
            extend_bits: EVEN_SPLIT_BITS,
            left: Box::new(new_leaf),
            right: Box::new(leaf),
        };
        assert(docked.leaves() =~= seq![window] + leaf.leaves());
    } else {
        let docked = DockingNode::Node {
            split,
            extend_bits: EVEN_SPLIT_BITS,
            left: Box::new(leaf),
            right: Box::new(new_leaf),
        };
        assert(docked.leaves() =~= leaf.leaves() + seq![window]);
    }
}

/// The tree with `window` docked beside the leaf that `path` leads to
/// (`true` for the left child at each node), as `insert_beside` docks it
/// there; a path that does not end at a leaf leaves the tree as it is.
pub open spec fn docked_at(t: DockingNode, path: Seq<bool>, window: u32, split: Split, before: bool) -> DockingNode
    decreases path.len(),
{
    match t {
        DockingNode::Leaf { .. } => if path.len() == 0 {
            if before {
                DockingNode::Node {
                    split,
                    extend_bits: EVEN_SPLIT_BITS,
                    left: Box::new(DockingNode::Leaf { window }),
                    right: Box::new(t),
                }
            } else {
                DockingNode::Node {
                    split,
                    extend_bits: EVEN_SPLIT_BITS,
                    left: Box::new(t),
                    right: Box::new(DockingNode::Leaf { window }),
                }
            }
        } else {
            t
        },
        DockingNode::Node { split: s, extend_bits, left, right } => if path.len() == 0 {
            t
        } else if path[0] {
            DockingNode::Node {
                split: s,
                extend_bits,
                left: Box::new(docked_at(*left, path.drop_first(), window, split, before)),
                right,
            }
        } else {
            DockingNode::Node {
                split: s,
                extend_bits,
                left,
                right: Box::new(docked_at(*right, path.drop_first(), window, split, before)),
            }
        },
    }
}

/// Undocking a window that no leaf holds leaves the tree as it is.
pub proof fn lemma_pruned_absent(t: DockingNode, w: u32)
    requires
        !t.leaves().contains(w),
    ensures
        t.pruned(w) == Some(t),
    decreases t,
{
    match t {
        DockingNode::Leaf { window } => {
            assert(t.leaves()[0] == window);
        },
        DockingNode::Node { split, extend_bits, left, right } => {
            lemma_contains_concat(left.leaves(), right.leaves(), w);
            lemma_pruned_absent(*left, w);
            lemma_pruned_absent(*right, w);
        },
    }
}

/// Docking a window that the tree does not hold beside any leaf, and then
/// undocking it, gives back the tree: its shape, splits, shares and leaves.
pub proof fn lemma_dock_at_then_undock(t: DockingNode, path: Seq<bool>, window: u32, split: Split, before: bool)
    requires
        !t.leaves().contains(window),
    ensures
        docked_at(t, path, window, split, before).pruned(window) == Some(t),
    decreases path.len(),
{
    lemma_pruned_absent(t, window);
    match t {
        DockingNode::Leaf { window: w } => {
            if path.len() == 0 {
                assert(t.leaves()[0] == w);
                lemma_dock_then_undock(t, window, split, before);
            }
        },
        DockingNode::Node { split: s, extend_bits, left, right } => {
            if path.len() > 0 {
                lemma_contains_concat(left.leaves(), right.leaves(), window);
                lemma_pruned_absent(*left, window);
                lemma_pruned_absent(*right, window);
                lemma_dock_at_then_undock(*left, path.drop_first(), window, split, before);
                lemma_dock_at_then_undock(*right, path.drop_first(), window, split, before);
            }
        },
    }
}

/// Docking beside a leaf splits it evenly along `split`, and the window
/// lands on the side it was dropped on: first (left or top) when `before`
/// holds, second otherwise; the leaf's own window takes the other side.
pub proof fn lemma_dock_at_leaf_side(leaf: DockingNode, window: u32, split: Split, before: bool)
    requires
        leaf is Leaf,
    ensures
        ({
            let d = docked_at(leaf, Seq::<bool>::empty(), window, split, before);
            &&& d is Node
            &&& d->split == split
            &&& d->extend_bits == EVEN_SPLIT_BITS
            &&& before ==> *d->left == (DockingNode::Leaf { window }) && *d->right == leaf
            &&& !before ==> *d->left == leaf && *d->right == (DockingNode::Leaf { window })
            &&& d.leaves() == if before {
                seq![window] + leaf.leaves()
            } else {
                leaf.leaves() + seq![window]
            }
        }),
{
    let d = docked_at(leaf, Seq::<bool>::empty(), window, split, before);
    let nl = DockingNode::Leaf { window };
    assert(nl.leaves() == seq![window]);
    assert(d.leaves() == d->left.leaves() + d->right.leaves());
    assert(d.leaves() =~= if before {
        seq![window] + leaf.leaves()
    } else {
        leaf.leaves() + seq![window]
    });
}

/// Renaming no slot leaves the tree as it is: remapping changes only the
/// windows at the leaves, never the shape, the split axes or the shares.
pub proof fn lemma_remap_identity(t: DockingNode)
    ensures
        t.remapped(Map::<u32, u32>::empty()) == t,
    decreases t,
{
    match t {
        DockingNode::Leaf { .. } => {},
        DockingNode::Node { split, extend_bits, left, right } => {
            lemma_remap_identity(*left);
            lemma_remap_identity(*right);
        },
    }
}

/// Remapping keeps every split node's axis and share, and every leaf a
/// leaf, and renames each leaf by the map where it holds the leaf's slot.
pub proof fn lemma_remap_keeps_shape(t: DockingNode, m: Map<u32, u32>)
    ensures
        t is Leaf ==> t.remapped(m) == (DockingNode::Leaf {
            window: if m.contains_key(t->window) {
                m[t->window]
            } else {
                t->window
            },
        }),
        t is Node ==> {
            let r = t.remapped(m);
            &&& r is Node
            &&& r->split == t->split
            &&& r->extend_bits == t->extend_bits
            &&& *r->left == t->left.remapped(m)
            &&& *r->right == t->right.remapped(m)
        },
{
}

} // verus!
