//! The table of editor windows: slots that keep their index while other
//! windows come and go, and the drawing order of the windows by layer.
use crate::dock::DockingNode;
use itertools::Itertools;
use std::collections::HashMap;
use vstd::prelude::*;

verus! {

broadcast use vstd::std_specs::hash::group_hash_axioms;

/// Windows by slot; a closed window leaves its slot empty and the slot is
/// reused by the next window that opens.
pub struct UiWindows<W> {
    pub windows: Vec<Option<W>>,
    pub free_slots: Vec<usize>,
}

impl<W> UiWindows<W> {
    /// The free slots are distinct and are exactly the empty slots.
    pub open spec fn wf(&self) -> bool {
        &&& forall|i: int, j: int|
            0 <= i < j < self.free_slots@.len() ==> self.free_slots@[i] != self.free_slots@[j]
        &&& forall|i: int|
            0 <= i < self.free_slots@.len() ==> #[trigger] self.free_slots@[i] < self.windows@.len()
        &&& forall|k: usize|
            k < self.windows@.len() ==> (#[trigger] self.windows@[k as int] is None
                <==> self.free_slots@.contains(k))
    }

    /// A table whose slots hold `windows`, in order, with none free.
    pub fn from_windows(windows: Vec<W>) -> (t: Self)
        ensures
            t.wf(),
            t.free_slots@.len() == 0,
            t.windows@.len() == windows@.len(),
            forall|i: int| 0 <= i < windows@.len() ==> #[trigger] t.windows@[i] == Some(windows@[i]),
    {
        let mut windows = windows;
        let mut slots: Vec<Option<W>> = Vec::new();
        let ghost orig = windows@;
        let n = windows.len();
        let mut i: usize = 0;
        while i < n
            invariant
                n == orig.len(),
                i <= n,
                windows@ == orig.subrange(i as int, n as int),
                slots@.len() == i,
                forall|k: int| 0 <= k < i ==> #[trigger] slots@[k] == Some(orig[k]),
            decreases n - i,
        {
            let w = windows.remove(0);
            slots.push(Some(w));
            i = i + 1;
            assert(windows@ =~= orig.subrange(i as int, n as int));
        }
        let t = UiWindows { windows: slots, free_slots: Vec::new() };
        assert forall|k: usize| k < t.windows@.len() implies (#[trigger] t.windows@[k as int] is None
            <==> t.free_slots@.contains(k)) by {
            assert(t.windows@[k as int] == Some(orig[k as int]));
        }
        t
    }

    /// Closes the window in slot `index` and returns it; the slot becomes
    /// free.
    pub fn remove(&mut self, index: usize) -> (w: W)
        requires
            old(self).wf(),
            index < old(self).windows@.len(),
            old(self).windows@[index as int] is Some,
        ensures
            final(self).wf(),
            Some(w) == old(self).windows@[index as int],
            final(self).windows@ == old(self).windows@.update(index as int, None),
            final(self).free_slots@ == old(self).free_slots@.push(index),
    {
        let w = self.windows[index].take().unwrap();
        self.free_slots.push(index);
        proof {
            let s = self.free_slots@;
            assert forall|k: usize| k < self.windows@.len() implies (
            #[trigger] self.windows@[k as int] is None <==> s.contains(k)) by {
                if k == index {
                    assert(s[s.len() - 1] == index);
                } else {
                    assert(self.windows@[k as int] == old(self).windows@[k as int]);
                    if s.contains(k) {
                        let j = choose|j: int| 0 <= j < s.len() && s[j] == k;
                        assert(s[s.len() - 1] == index);
                        assert(j != s.len() - 1);
                        assert(old(self).free_slots@[j] == k);
                    }
                    if old(self).free_slots@.contains(k) {
                        let j = choose|j: int|
                            0 <= j < old(self).free_slots@.len() && old(self).free_slots@[j] == k;
                        assert(s[j] == k);
                    }
                }
            }
            assert forall|i: int, j: int| 0 <= i < j < s.len() implies s[i] != s[j] by {
                if j == s.len() - 1 {
                    assert(old(self).windows@[s[i] as int] is None);
                }
            }
        }
        w
    }

    /// Opens `window` in the most recently freed slot, or in a new slot at
    /// the end when none is free.
    pub fn append(&mut self, window: W)
        requires
            old(self).wf(),
        ensures
            final(self).wf(),
            old(self).free_slots@.len() > 0 ==> {
                let slot = old(self).free_slots@.last();
                &&& final(self).windows@ == old(self).windows@.update(slot as int, Some(window))
                &&& final(self).free_slots@ == old(self).free_slots@.drop_last()
            },
            old(self).free_slots@.len() == 0 ==> {
                &&& final(self).windows@ == old(self).windows@.push(Some(window))
                &&& final(self).free_slots@ == old(self).free_slots@
            },
    {
        if let Some(index) = self.free_slots.pop() {
            self.windows.set(index, Some(window));
            proof {
                let o = old(self).free_slots@;
                let s = self.free_slots@;
                assert(s =~= o.drop_last());
                assert forall|k: usize| k < self.windows@.len() implies (
                #[trigger] self.windows@[k as int] is None <==> s.contains(k)) by {
                    if k == index {
                        if s.contains(k) {
                            let j = choose|j: int| 0 <= j < s.len() && s[j] == k;
                            assert(o[j] == o[o.len() - 1]);
                        }
                    } else {
                        assert(self.windows@[k as int] == old(self).windows@[k as int]);
                        if o.contains(k) {
                            let j = choose|j: int| 0 <= j < o.len() && o[j] == k;
                            assert(o[o.len() - 1] == index);
                            assert(j != o.len() - 1);
                            assert(s[j] == k);
                        }
                        if s.contains(k) {
                            let j = choose|j: int| 0 <= j < s.len() && s[j] == k;
                            assert(o[j] == k);
                        }
                    }
                }
            }
        } else {
            self.windows.push(Some(window));
            proof {
                let s = self.free_slots@;
                assert forall|k: usize| k < self.windows@.len() implies (
                #[trigger] self.windows@[k as int] is None <==> s.contains(k)) by {
                    if k < old(self).windows@.len() {
                        assert(old(self).windows@[k as int] == self.windows@[k as int]);
                    } else {
                        if s.contains(k) {
                            let j = choose|j: int| 0 <= j < s.len() && s[j] == k;
                            assert(s[j] < old(self).windows@.len());
                        }
                    }
                }
            }
        }
    }
}

impl<W> UiWindows<W> {
    /// The slot numbers that the windows get when saved: the open windows
    /// are saved in slot order with no gaps, so slot `i` maps to the number
    /// of open windows before it.
    pub fn save_remap(&self) -> (remap: HashMap<u32, u32>)
        requires
            self.windows@.len() <= u32::MAX,
        ensures
            forall|i: u32| #[trigger]
                remap@.contains_key(i) <==> (i < self.windows@.len() && self.windows@[i as int] is Some),
            forall|i: u32|
                #[trigger] remap@.contains_key(i) ==> remap@[i] == count_some(self.windows@, i as int),
    {
        let mut remap: HashMap<u32, u32> = HashMap::new();
        let mut new_idx: u32 = 0;
        let mut i: usize = 0;
        while i < self.windows.len()
            invariant
                self.windows@.len() <= u32::MAX,
                i <= self.windows@.len(),
                new_idx == count_some(self.windows@, i as int),
                forall|k: u32| #[trigger]
                    remap@.contains_key(k) <==> (k < i && self.windows@[k as int] is Some),
                forall|k: u32|
                    #[trigger] remap@.contains_key(k) ==> remap@[k] == count_some(self.windows@, k as int),
            decreases self.windows@.len() - i,
        {
            proof {
                lemma_count_some_le(self.windows@, i as int);
            }
            if self.windows[i].is_some() {
                remap.insert(i as u32, new_idx);
                new_idx = new_idx + 1;
            }
            i = i + 1;
        }
        remap
    }
}

/// Opening a window right after closing one puts it into the slot that was
/// closed, and leaves every other slot as it was.
pub proof fn lemma_append_reuses_removed_slot<W>(
    t0: UiWindows<W>,
    t1: UiWindows<W>,
    t2: UiWindows<W>,
    index: usize,
    w: W,
)
    requires
        t0.wf(),
        index < t0.windows@.len(),
        t0.windows@[index as int] is Some,
        t1.windows@ == t0.windows@.update(index as int, None),
        t1.free_slots@ == t0.free_slots@.push(index),
        t2.windows@ == t1.windows@.update(t1.free_slots@.last() as int, Some(w)),
        t2.free_slots@ == t1.free_slots@.drop_last(),
    ensures
        t2.windows@ == t0.windows@.update(index as int, Some(w)),
        t2.free_slots@ == t0.free_slots@,
{
    assert(t2.windows@ =~= t0.windows@.update(index as int, Some(w)));
    assert(t2.free_slots@ =~= t0.free_slots@);
}

/// `(key, index)` pairs ordered by key, then by index.
pub open spec fn lex_lt(a: (u64, usize), b: (u64, usize)) -> bool {
    a.0 < b.0 || (a.0 == b.0 && a.1 < b.1)
}

/// `Itertools::sorted_by_key` with the key `.0`: a stable sort, so pairs
/// whose indices `.1` come in increasing order end up ordered by key and
/// then by index, and the result holds the same pairs.
#[verifier::external_body]
fn sorted_by_key_stable(items: Vec<(u64, usize)>) -> (r: Vec<(u64, usize)>)
    requires
        forall|i: int, j: int| 0 <= i < j < items@.len() ==> items@[i].1 < items@[j].1,
    ensures
        r@.len() == items@.len(),
        forall|x: (u64, usize)| r@.contains(x) <==> items@.contains(x),
        forall|i: int, j: int| 0 <= i < j < r@.len() ==> lex_lt(r@[i], r@[j]),
{
    items.into_iter().sorted_by_key(|e| e.0).collect()
}

/// The occupied slots with their keys, in slot order.
fn keyed_slots(keys: &Vec<Option<u64>>) -> (items: Vec<(u64, usize)>)
    ensures
        forall|i: int, j: int| 0 <= i < j < items@.len() ==> items@[i].1 < items@[j].1,
        forall|x: (u64, usize)|
            items@.contains(x) <==> (x.1 < keys@.len() && keys@[x.1 as int] == Some(x.0)),
{
    let mut items: Vec<(u64, usize)> = Vec::new();
    let mut i: usize = 0;
    while i < keys.len()
        invariant
            i <= keys@.len(),
            forall|a: int, b: int| 0 <= a < b < items@.len() ==> items@[a].1 < items@[b].1,
            forall|a: int| 0 <= a < items@.len() ==> #[trigger] items@[a].1 < i,
            forall|x: (u64, usize)|
                items@.contains(x) <==> (x.1 < i && keys@[x.1 as int] == Some(x.0)),
        decreases keys@.len() - i,
    {
        let ghost before = items@;
        if let Some(k) = keys[i] {
            items.push((k, i));
            proof {
                assert forall|x: (u64, usize)| items@.contains(x) <==> (x.1 < i + 1 && keys@[x.1 as int]
                    == Some(x.0)) by {
                    if items@.contains(x) {
                        let a = choose|a: int| 0 <= a < items@.len() && items@[a] == x;
                        if a < before.len() {
                            assert(before.contains(x));
                        }
                    }
                    if x.1 < i + 1 && keys@[x.1 as int] == Some(x.0) {
                        if x.1 < i {
                            assert(before.contains(x));
                            let a = choose|a: int| 0 <= a < before.len() && before[a] == x;
                            assert(items@[a] == x);
                        } else {
                            assert(items@[items@.len() - 1] == x);
                        }
                    }
                }
            }
        } else {
            proof {
                assert forall|x: (u64, usize)| items@.contains(x) <==> (x.1 < i + 1 && keys@[x.1 as int]
                    == Some(x.0)) by {
                    if items@.contains(x) {
                        let a = choose|a: int| 0 <= a < items@.len() && items@[a] == x;
                        assert(items@[a].1 < i);
                    }
                }
            }
        }
        i = i + 1;
    }
    items
}

/// The slots that have a key, ordered by key and then by slot.
pub fn order_by_key(keys: &Vec<Option<u64>>) -> (order: Vec<usize>)
    ensures
        forall|k: usize| order@.contains(k) <==> (k < keys@.len() && keys@[k as int] is Some),
        forall|i: int, j: int|
            #![trigger order@[i], order@[j]]
            0 <= i < j < order@.len() ==> lex_lt(
                (keys@[order@[i] as int].unwrap(), order@[i]),
                (keys@[order@[j] as int].unwrap(), order@[j]),
            ),
{
    let items = keyed_slots(keys);
    let sorted = sorted_by_key_stable(items);
    let mut order: Vec<usize> = Vec::new();
    let mut p: usize = 0;
    while p < sorted.len()
        invariant
            p <= sorted@.len(),
            order@.len() == p,
            forall|q: int| 0 <= q < p ==> #[trigger] order@[q] == sorted@[q].1,
        decreases sorted@.len() - p,
    {
        order.push(sorted[p].1);
        p = p + 1;
    }
    proof {
        assert forall|k: usize| order@.contains(k) <==> (k < keys@.len() && keys@[k as int] is Some) by {
            if order@.contains(k) {
                let q = choose|q: int| 0 <= q < order@.len() && order@[q] == k;
                assert(sorted@.contains(sorted@[q]));
            }
            if k < keys@.len() && keys@[k as int] is Some {
                let x = (keys@[k as int].unwrap(), k);
                assert(sorted@.contains(x));
                let q = choose|q: int| 0 <= q < sorted@.len() && sorted@[q] == x;
                assert(order@[q] == k);
            }
        }
        assert forall|i: int, j: int|
            #![trigger order@[i], order@[j]]
            0 <= i < j < order@.len() implies lex_lt(
            (keys@[order@[i] as int].unwrap(), order@[i]),
            (keys@[order@[j] as int].unwrap(), order@[j]),
        ) by {
            assert(sorted@.contains(sorted@[i]));
            assert(sorted@.contains(sorted@[j]));
            assert(lex_lt(sorted@[i], sorted@[j]));
        }
    }
    order
}

/// The slots that hold a window, ordered by the windows' layers (then by
/// slot): the order in which windows are drawn and handled.
pub fn order_by_layer(layers: &Vec<Option<u32>>) -> (order: Vec<usize>)
    ensures
        forall|k: usize| order@.contains(k) <==> (k < layers@.len() && layers@[k as int] is Some),
        forall|i: int, j: int|
            #![trigger order@[i], order@[j]]
            0 <= i < j < order@.len() ==> {
                let a = order@[i] as int;
                let b = order@[j] as int;
                layers@[a].unwrap() < layers@[b].unwrap() || (layers@[a].unwrap()
                    == layers@[b].unwrap() && a < b)
            },
{
    let mut keys: Vec<Option<u64>> = Vec::new();
    let mut i: usize = 0;
    while i < layers.len()
        invariant
            i <= layers@.len(),
            keys@.len() == i,
            forall|k: int|
                0 <= k < i ==> #[trigger] keys@[k] == match layers@[k] {
                    Some(l) => Some(l as u64),
                    None => None,
                },
        decreases layers@.len() - i,
    {
        match layers[i] {
            Some(l) => keys.push(Some(l as u64)),
            None => keys.push(None),
        }
        i = i + 1;
    }
    let order = order_by_key(&keys);
    proof {
        assert forall|k: usize| order@.contains(k) <==> (k < layers@.len() && layers@[k as int] is Some) by {
            if k < layers@.len() {
                assert(keys@[k as int] is Some <==> layers@[k as int] is Some);
            }
        }
        assert forall|i: int, j: int|
            #![trigger order@[i], order@[j]]
            0 <= i < j < order@.len() implies {
            let a = order@[i] as int;
            let b = order@[j] as int;
            layers@[a].unwrap() < layers@[b].unwrap() || (layers@[a].unwrap() == layers@[b].unwrap()
                && a < b)
        } by {
            assert(order@.contains(order@[i]));
            assert(order@.contains(order@[j]));
            assert(keys@[order@[i] as int] == Some(layers@[order@[i] as int].unwrap() as u64));
            assert(keys@[order@[j] as int] == Some(layers@[order@[j] as int].unwrap() as u64));
        }
    }
    order
}

/// Where a window is drawn among the others: windows docked into the dock
/// tree first, then the free windows, and the focused window last.
pub open spec fn spec_tier(docked: bool, focused: bool) -> u8 {
    if docked {
        0
    } else if focused {
        2
    } else {
        1
    }
}

/// The tier of a window for `reorder_layers`.
pub fn layer_tier(docked: bool, focused: bool) -> (tier: u8)
    ensures
        tier == spec_tier(docked, focused),
{
    if docked {
        0
    } else if focused {
        2
    } else {
        1
    }
}

/// The sort key of a window: its tier, then its current layer.
pub open spec fn layer_key(tier: u8, layer: u32) -> u64 {
    ((tier as int) * 0x1_0000_0000 + layer as int) as u64
}

/// The number of slots among the first `n` whose entry is `Some`.
pub open spec fn count_some<T>(s: Seq<Option<T>>, n: int) -> nat
    decreases n,
{
    if n <= 0 {
        0
    } else {
        count_some(s, n - 1) + if s[n - 1] is Some {
            1nat
        } else {
            0nat
        }
    }
}

/// Some window holds layer `k`.
pub open spec fn layer_taken(slots: Seq<Option<(u8, u32)>>, layers: Seq<Option<u32>>, k: int) -> bool {
    exists|i: int| 0 <= i < slots.len() && slots[i] is Some && #[trigger] layers[i] == Some(k as u32)
}

/// New layers for the windows: each window in slot `i` with `(tier, layer)`
/// in `slots[i]` gets as its layer its rank among the windows ordered by
/// tier, then by old layer, then by slot; so the layers become `0..n` for
/// the `n` windows.
pub fn reorder_layers(slots: &Vec<Option<(u8, u32)>>) -> (layers: Vec<Option<u32>>)
    requires
        slots@.len() <= u32::MAX,
    ensures
        layers@.len() == slots@.len(),
        forall|i: int| 0 <= i < slots@.len() ==> (#[trigger] layers@[i] is Some <==> slots@[i] is Some),
        forall|i: int|
            0 <= i < slots@.len() && slots@[i] is Some ==> #[trigger] layers@[i].unwrap()
                < count_some(slots@, slots@.len() as int),
        forall|i: int, j: int|
            #![trigger layers@[i], layers@[j]]
            0 <= i < slots@.len() && 0 <= j < slots@.len() && slots@[i] is Some && slots@[j] is Some
                ==> (layers@[i].unwrap() < layers@[j].unwrap() <==> lex_lt(
                (layer_key(slots@[i].unwrap().0, slots@[i].unwrap().1), i as usize),
                (layer_key(slots@[j].unwrap().0, slots@[j].unwrap().1), j as usize),
            )),
        forall|k: int|
            0 <= k < count_some(slots@, slots@.len() as int) ==> #[trigger] layer_taken(
                slots@,
                layers@,
                k,
            ),
        forall|i: int, j: int|
            #![trigger layers@[i], layers@[j]]
            0 <= i < slots@.len() && 0 <= j < slots@.len() && slots@[i] is Some && slots@[j] is Some
                && i != j ==> layers@[i] != layers@[j],
        forall|i: int, j: int|
            #![trigger layers@[i], layers@[j]]
            0 <= i < slots@.len() && 0 <= j < slots@.len() && slots@[i] is Some && slots@[j] is Some
                && slots@[i].unwrap().0 < slots@[j].unwrap().0 ==> layers@[i].unwrap()
                < layers@[j].unwrap(),
{
    let n = slots.len();
    let mut keys: Vec<Option<u64>> = Vec::new();
    let mut i: usize = 0;
    while i < n
        invariant
            n == slots@.len(),
            i <= n,
            keys@.len() == i,
            forall|k: int|
                0 <= k < i ==> #[trigger] keys@[k] == match slots@[k] {
                    Some(p) => Some(layer_key(p.0, p.1)),
                    None => None,
                },
        decreases n - i,
    {
        match slots[i] {
            Some(p) => {
                let key: u64 = (p.0 as u64) * 0x1_0000_0000u64 + p.1 as u64;
                keys.push(Some(key));
            },
            None => keys.push(None),
        }
        i = i + 1;
    }
    let order = order_by_key(&keys);
    let mut layers: Vec<Option<u32>> = Vec::new();
    let mut i: usize = 0;
    while i < n
        invariant
            i <= n,
            layers@.len() == i,
            forall|k: int| 0 <= k < i ==> #[trigger] layers@[k] is None,
        decreases n - i,
    {
        layers.push(None);
        i = i + 1;
    }
    proof {
        lemma_order_distinct(keys@, order@);
        lemma_order_len(keys@, order@);
        lemma_count_some_le(keys@, n as int);
    }
    let mut p: usize = 0;
    while p < order.len()
        invariant
            n == slots@.len(),
            n <= u32::MAX,
            layers@.len() == n,
            p <= order@.len(),
            order@.len() == count_some(keys@, n as int),
            order@.len() <= n,
            keys@.len() == n,
            forall|k: usize| order@.contains(k) <==> (k < keys@.len() && keys@[k as int] is Some),
            forall|a: int, b: int| 0 <= a < b < order@.len() ==> order@[a] != order@[b],
            forall|q: int| 0 <= q < p ==> #[trigger] layers@[order@[q] as int] == Some(q as u32),
            forall|k: int|
                0 <= k < n ==> (#[trigger] layers@[k] is Some <==> exists|q: int|
                    0 <= q < p && order@[q] == k),
        decreases order@.len() - p,
    {
        let slot = order[p];
        proof {
            assert(order@.contains(slot));
        }
        let ghost before = layers@;
        layers.set(slot, Some(p as u32));
        proof {
            assert forall|q: int| 0 <= q < p + 1 implies #[trigger] layers@[order@[q] as int] == Some(q as u32) by {
                assert(order@.contains(order@[q]));
                if q < p {
                    assert(order@[q] != order@[p as int]);
                    assert(before[order@[q] as int] == Some(q as u32));
                }
            }
            assert forall|k: int| 0 <= k < n implies (#[trigger] layers@[k] is Some <==> exists|q: int|
                0 <= q < p + 1 && order@[q] == k) by {
                if k == slot as int {
                    assert(order@[p as int] == k);
                }
            }
        }
        p = p + 1;
    }
    proof {
        assert forall|i: int| 0 <= i < slots@.len() implies (#[trigger] layers@[i] is Some
            <==> slots@[i] is Some) by {
            assert(keys@[i] is Some <==> slots@[i] is Some);
            if layers@[i] is Some {
                let q = choose|q: int| 0 <= q < order@.len() && order@[q] == i;
                assert(order@.contains(i as usize));
            }
            if slots@[i] is Some {
                assert(order@.contains(i as usize));
                let q = choose|q: int| 0 <= q < order@.len() && order@[q] == i as usize;
                assert(layers@[order@[q] as int] == Some(q as u32));
            }
        }
        lemma_count_some_same(keys@, slots@, n as int);
        assert forall|i: int|
            0 <= i < slots@.len() && slots@[i] is Some implies #[trigger] layers@[i].unwrap()
                < count_some(slots@, slots@.len() as int) by {
            assert(keys@[i] is Some);
            assert(order@.contains(i as usize));
            let q = choose|q: int| 0 <= q < order@.len() && order@[q] == i as usize;
            assert(layers@[order@[q] as int] == Some(q as u32));
        }
        assert forall|i: int, j: int|
            #![trigger layers@[i], layers@[j]]
            0 <= i < slots@.len() && 0 <= j < slots@.len() && slots@[i] is Some && slots@[j] is Some
                implies (layers@[i].unwrap() < layers@[j].unwrap() <==> lex_lt(
                (layer_key(slots@[i].unwrap().0, slots@[i].unwrap().1), i as usize),
                (layer_key(slots@[j].unwrap().0, slots@[j].unwrap().1), j as usize),
            )) by {
            assert(keys@[i] is Some);
            assert(keys@[j] is Some);
            assert(order@.contains(i as usize));
            assert(order@.contains(j as usize));
            let qi = choose|q: int| 0 <= q < order@.len() && order@[q] == i as usize;
            let qj = choose|q: int| 0 <= q < order@.len() && order@[q] == j as usize;
            assert(qi < n && qj < n);
            assert(layers@[order@[qi] as int] == Some(qi as u32));
            assert(layers@[order@[qj] as int] == Some(qj as u32));
            assert(keys@[i] == Some(layer_key(slots@[i].unwrap().0, slots@[i].unwrap().1)));
            assert(keys@[j] == Some(layer_key(slots@[j].unwrap().0, slots@[j].unwrap().1)));
            if qi < qj {
                assert(lex_lt((keys@[order@[qi] as int].unwrap(), order@[qi]), (keys@[order@[qj] as int].unwrap(), order@[qj])));
            } else if qj < qi {
                assert(lex_lt((keys@[order@[qj] as int].unwrap(), order@[qj]), (keys@[order@[qi] as int].unwrap(), order@[qi])));
            }
        }
        assert forall|k: int| 0 <= k < count_some(slots@, slots@.len() as int) implies #[trigger] layer_taken(
            slots@,
            layers@,
            k,
        ) by {
            assert(order@.contains(order@[k]));
            assert(keys@[order@[k] as int] is Some);
            assert(layers@[order@[k] as int] == Some(k as u32));
        }
        assert forall|i: int, j: int|
            #![trigger layers@[i], layers@[j]]
            0 <= i < slots@.len() && 0 <= j < slots@.len() && slots@[i] is Some && slots@[j] is Some
                && i != j implies layers@[i] != layers@[j] by {
            let ki = layer_key(slots@[i].unwrap().0, slots@[i].unwrap().1);
            let kj = layer_key(slots@[j].unwrap().0, slots@[j].unwrap().1);
            assert(lex_lt((ki, i as usize), (kj, j as usize)) || lex_lt((kj, j as usize), (ki, i as usize)));
        }
        assert forall|i: int, j: int|
            #![trigger layers@[i], layers@[j]]
            0 <= i < slots@.len() && 0 <= j < slots@.len() && slots@[i] is Some && slots@[j] is Some
                && slots@[i].unwrap().0 < slots@[j].unwrap().0 implies layers@[i].unwrap()
                < layers@[j].unwrap() by {
            let (ti, li) = slots@[i].unwrap();
            let (tj, lj) = slots@[j].unwrap();
            assert(layer_key(ti, li) == ti as int * 0x1_0000_0000 + li as int);
            assert(layer_key(tj, lj) == tj as int * 0x1_0000_0000 + lj as int);
            assert(layer_key(ti, li) < layer_key(tj, lj));
        }
    }
    layers
}

proof fn lemma_order_distinct(keys: Seq<Option<u64>>, order: Seq<usize>)
    requires
        forall|i: int, j: int|
            #![trigger order[i], order[j]]
            0 <= i < j < order.len() ==> lex_lt(
                (keys[order[i] as int].unwrap(), order[i]),
                (keys[order[j] as int].unwrap(), order[j]),
            ),
    ensures
        forall|a: int, b: int| 0 <= a < b < order.len() ==> order[a] != order[b],
{
    assert forall|a: int, b: int| 0 <= a < b < order.len() implies order[a] != order[b] by {
        assert(lex_lt((keys[order[a] as int].unwrap(), order[a]), (keys[order[b] as int].unwrap(), order[b])));
    }
}

proof fn lemma_count_some_le<T>(s: Seq<Option<T>>, n: int)
    requires
        0 <= n,
    ensures
        count_some(s, n) <= n,
    decreases n,
{
    if n > 0 {
        lemma_count_some_le(s, n - 1);
    }
}

proof fn lemma_count_some_same<T, U>(a: Seq<Option<T>>, b: Seq<Option<U>>, n: int)
    requires
        0 <= n <= a.len(),
        n <= b.len(),
        forall|i: int| 0 <= i < n ==> (a[i] is Some <==> b[i] is Some),
    ensures
        count_some(a, n) == count_some(b, n),
    decreases n,
{
    if n > 0 {
        lemma_count_some_same(a, b, n - 1);
    }
}

/// The number of distinct slots in `order` is the number of `Some` entries
/// of `keys` when `order` holds exactly those slots.
proof fn lemma_order_len(keys: Seq<Option<u64>>, order: Seq<usize>)
    requires
        keys.len() <= usize::MAX,
        forall|k: usize| order.contains(k) <==> (k < keys.len() && keys[k as int] is Some),
        forall|a: int, b: int| 0 <= a < b < order.len() ==> order[a] != order[b],
    ensures
        order.len() == count_some(keys, keys.len() as int),
{
    lemma_distinct_filter_len(keys, order, keys.len() as int);
}

proof fn lemma_distinct_filter_len(keys: Seq<Option<u64>>, order: Seq<usize>, n: int)
    requires
        keys.len() <= usize::MAX,
        0 <= n <= keys.len(),
        forall|k: usize| order.contains(k) ==> (k < n && keys[k as int] is Some),
        forall|k: usize| (k < n && keys[k as int] is Some) ==> order.contains(k),
        forall|a: int, b: int| 0 <= a < b < order.len() ==> order[a] != order[b],
    ensures
        order.len() == count_some(keys, n),
    decreases n,
{
    if n == 0 {
        if order.len() > 0 {
            assert(order.contains(order[0]));
        }
    } else {
        let last = (n - 1) as usize;
        if keys[n - 1] is Some {
            assert(order.contains(last));
            let q = choose|q: int| 0 <= q < order.len() && order[q] == last;
            let rest = order.remove(q);
            assert forall|k: usize| rest.contains(k) implies (k < n - 1 && keys[k as int] is Some) by {
                let r = choose|r: int| 0 <= r < rest.len() && rest[r] == k;
                if r < q {
                    assert(order[r] == k);
                    assert(order.contains(k));
                } else {
                    assert(order[r + 1] == k);
                    assert(order.contains(k));
                }
            }
            assert forall|k: usize| (k < n - 1 && keys[k as int] is Some) implies rest.contains(k) by {
                assert(order.contains(k));
                let r = choose|r: int| 0 <= r < order.len() && order[r] == k;
                if r < q {
                    assert(rest[r] == k);
                } else {
                    assert(r != q);
                    assert(rest[r - 1] == k);
                }
            }
            assert forall|a: int, b: int| 0 <= a < b < rest.len() implies rest[a] != rest[b] by {
                let oa = if a < q { a } else { a + 1 };
                let ob = if b < q { b } else { b + 1 };
                assert(rest[a] == order[oa]);
                assert(rest[b] == order[ob]);
            }
            lemma_distinct_filter_len(keys, rest, n - 1);
        } else {
            assert forall|k: usize| order.contains(k) implies (k < n - 1 && keys[k as int] is Some) by {
                if k == last {
                    assert(!(keys[k as int] is Some));
                }
            }
            lemma_distinct_filter_len(keys, order, n - 1);
        }
    }
}

/// The count of `Some` entries never drops as the prefix grows.
proof fn lemma_count_some_mono<T>(s: Seq<Option<T>>, a: int, b: int)
    requires
        0 <= a <= b,
    ensures
        count_some(s, a) <= count_some(s, b),
    decreases b - a,
{
    if a < b {
        lemma_count_some_mono(s, a, b - 1);
    }
}

/// Saving numbers the open windows `0, 1, 2, ...` in slot order: a later
/// open slot gets a larger number, and every number is below the number
/// of open windows, so the saved numbers are exactly `0..n`.
pub proof fn lemma_save_numbering<W>(slots: Seq<Option<W>>, i: int, j: int)
    requires
        0 <= i < j <= slots.len(),
        slots[i] is Some,
    ensures
        count_some(slots, i) < count_some(slots, j),
        count_some(slots, i) < count_some(slots, slots.len() as int),
{
    assert(count_some(slots, i + 1) == count_some(slots, i) + 1);
    lemma_count_some_mono(slots, i + 1, j);
    lemma_count_some_mono(slots, j, slots.len() as int);
}

/// The window that takes the focus when the pointer is pressed, given for
/// the windows from the top layer down whether the pointer is over them:
/// the first that it is over; every other window loses the focus, so after
/// a press at most one window has it.
pub fn press_focus(hovered: &Vec<bool>) -> (r: Option<usize>)
    ensures
        match r {
            Some(k) => k < hovered@.len() && hovered@[k as int] && forall|j: int|
                0 <= j < k ==> !#[trigger] hovered@[j],
            None => forall|j: int| 0 <= j < hovered@.len() ==> !#[trigger] hovered@[j],
        },
{
    let mut i: usize = 0;
    while i < hovered.len()
        invariant
            i <= hovered@.len(),
            forall|j: int| 0 <= j < i ==> !#[trigger] hovered@[j],
        decreases hovered@.len() - i,
    {
        if hovered[i] {
            return Some(i);
        }
        i = i + 1;
    }
    None
}

/// Some slot of `layers` holds layer `k`.
pub open spec fn layer_held(layers: Seq<Option<u32>>, k: int) -> bool {
    exists|i: int| 0 <= i < layers.len() && #[trigger] layers[i] == Some(k as u32)
}

/// The focus slot of a focus holder.
pub open spec fn focus_slot<F>(holder: Option<(usize, F)>) -> Option<usize> {
    match holder {
        Some((i, _)) => Some(i),
        None => None,
    }
}

/// The window that has the focus, with its focus state: at most one
/// window has it, and none has it until a press.
pub struct WindowFocus<F> {
    pub holder: Option<(usize, F)>,
}

impl<F> WindowFocus<F> {
    /// No window has the focus.
    pub fn new() -> (r: Self)
        ensures
            r.holder is None,
    {
        WindowFocus { holder: None }
    }

    /// The slot of the focused window, if any.
    pub fn slot(&self) -> (r: Option<usize>)
        ensures
            r == focus_slot(self.holder),
    {
        match &self.holder {
            Some((i, _)) => Some(*i),
            None => None,
        }
    }

    /// A press of the pointer: the window `winner` (the topmost one under
    /// the pointer, `press_focus`) has the focus afterwards, keeping its
    /// focus state when it had the focus already and starting from `fresh`
    /// otherwise; every other window loses it, and with no winner no
    /// window has it.
    pub fn on_press(&mut self, winner: Option<usize>, fresh: F)
        ensures
            match winner {
                None => final(self).holder is None,
                Some(k) => final(self).holder == Some(
                    (
                        k,
                        if focus_slot(old(self).holder) == Some(k) {
                            old(self).holder.unwrap().1
                        } else {
                            fresh
                        },
                    ),
                ),
            },
    {
        let mut h: Option<(usize, F)> = None;
        core::mem::swap(&mut h, &mut self.holder);
        match winner {
            None => {},
            Some(k) => {
                match h {
                    Some((i, f)) => {
                        if i == k {
                            self.holder = Some((k, f));
                        } else {
                            self.holder = Some((k, fresh));
                        }
                    },
                    None => {
                        self.holder = Some((k, fresh));
                    },
                }
            },
        }
    }

    /// The focus goes with a window's tabs from slot `from` to slot `to`
    /// (a torn off tab's new window, or the window a dropped one merges
    /// into); any other focus stays.
    pub fn move_focus(&mut self, from: usize, to: usize)
        ensures
            focus_slot(old(self).holder) == Some(from) ==> final(self).holder == Some(
                (to, old(self).holder.unwrap().1),
            ),
            focus_slot(old(self).holder) != Some(from) ==> final(self).holder == old(self).holder,
    {
        let mut h: Option<(usize, F)> = None;
        core::mem::swap(&mut h, &mut self.holder);
        match h {
            Some((i, f)) => {
                if i == from {
                    self.holder = Some((to, f));
                } else {
                    self.holder = Some((i, f));
                }
            },
            None => {},
        }
    }
}

/// The sort key of the open window in slot `i` with layer `layer`: its
/// tier (docked, free, or the focused free window), then its layer.
pub open spec fn frame_key(dock: &DockingNode, focused: Option<usize>, i: int, layer: u32) -> u64 {
    layer_key(spec_tier(dock.leaves().contains(i as u32), focused == Some(i as usize)), layer)
}

/// The layers of the windows after a frame, from their current `layers`
/// (`None` for an empty slot), the dock tree and the focused window: the
/// `n` open windows hold the layers `0..n`, each once; every docked window
/// lies below every free window, and the focused free window above every
/// other free window; within a tier the old order, then the slot, decides.
pub fn frame_layers(layers: &Vec<Option<u32>>, dock: &DockingNode, focused: Option<usize>) -> (r: Vec<
    Option<u32>,
>)
    requires
        layers@.len() <= u32::MAX,
    ensures
        r@.len() == layers@.len(),
        forall|i: int| 0 <= i < layers@.len() ==> (#[trigger] r@[i] is Some <==> layers@[i] is Some),
        forall|i: int|
            0 <= i < layers@.len() && layers@[i] is Some ==> #[trigger] r@[i].unwrap() < count_some(
                layers@,
                layers@.len() as int,
            ),
        forall|k: int| 0 <= k < count_some(layers@, layers@.len() as int) ==> #[trigger] layer_held(r@, k),
        forall|i: int, j: int|
            #![trigger r@[i], r@[j]]
            0 <= i < layers@.len() && 0 <= j < layers@.len() && layers@[i] is Some && layers@[j] is Some
                && i != j ==> r@[i] != r@[j],
        forall|i: int, j: int|
            #![trigger r@[i], r@[j]]
            0 <= i < layers@.len() && 0 <= j < layers@.len() && layers@[i] is Some && layers@[j] is Some
                && dock.leaves().contains(i as u32) && !dock.leaves().contains(j as u32) ==> r@[i].unwrap()
                < r@[j].unwrap(),
        forall|i: int, j: int|
            #![trigger r@[i], r@[j]]
            0 <= i < layers@.len() && 0 <= j < layers@.len() && layers@[i] is Some && layers@[j] is Some
                && !dock.leaves().contains(i as u32) && !dock.leaves().contains(j as u32) && focused
                == Some(i as usize) && i != j ==> r@[j].unwrap() < r@[i].unwrap(),
        forall|i: int, j: int|
            #![trigger r@[i], r@[j]]
            0 <= i < layers@.len() && 0 <= j < layers@.len() && layers@[i] is Some && layers@[j] is Some
                ==> (r@[i].unwrap() < r@[j].unwrap() <==> lex_lt(
                (frame_key(dock, focused, i, layers@[i].unwrap()), i as usize),
                (frame_key(dock, focused, j, layers@[j].unwrap()), j as usize),
            )),
{
    let n = layers.len();
    let mut slots: Vec<Option<(u8, u32)>> = Vec::new();
    let mut i: usize = 0;
    while i < n
        invariant
            n == layers@.len(),
            n <= u32::MAX,
            i <= n,
            slots@.len() == i,
            forall|k: int|
                0 <= k < i ==> #[trigger] slots@[k] == match layers@[k] {
                    Some(l) => Some(
                        (spec_tier(dock.leaves().contains(k as u32), focused == Some(k as usize)), l),
                    ),
                    None => None,
                },
        decreases n - i,
    {
        match layers[i] {
            Some(l) => {
                let is_focused = match focused {
                    Some(f) => f == i,
                    None => false,
                };
                let t = layer_tier(dock.contains(i as u32), is_focused);
                slots.push(Some((t, l)));
            },
            None => slots.push(None),
        }
        i = i + 1;
    }
    let r = reorder_layers(&slots);
    proof {
        assert forall|k: int| 0 <= k < n implies (slots@[k] is Some <==> #[trigger] layers@[k] is Some) by {
        }
        lemma_count_some_same(layers@, slots@, n as int);
        assert forall|k: int| 0 <= k < count_some(layers@, layers@.len() as int) implies #[trigger] layer_held(
            r@,
            k,
        ) by {
            assert(layer_taken(slots@, r@, k));
            let w = choose|w: int| 0 <= w < slots@.len() && slots@[w] is Some && #[trigger] r@[w] == Some(k as u32);
            assert(r@[w] == Some(k as u32));
        }
        assert forall|a: int, b: int|
            #![trigger r@[a], r@[b]]
            0 <= a < n && 0 <= b < n && layers@[a] is Some && layers@[b] is Some && dock.leaves().contains(a as u32)
                && !dock.leaves().contains(b as u32) implies r@[a].unwrap() < r@[b].unwrap() by {
            assert(slots@[a].unwrap().0 == 0);
            assert(slots@[b].unwrap().0 >= 1);
        }
        assert forall|a: int, b: int|
            #![trigger r@[a], r@[b]]
            0 <= a < n && 0 <= b < n && layers@[a] is Some && layers@[b] is Some && !dock.leaves().contains(a as u32)
                && !dock.leaves().contains(b as u32) && focused == Some(a as usize) && a != b implies r@[b].unwrap()
                < r@[a].unwrap() by {
            assert(slots@[a].unwrap().0 == 2);
            assert(focused != Some(b as usize));
            assert(slots@[b].unwrap().0 == 1);
        }
    }
    r
}

/// The tabs of a window and which one is shown.
pub struct TabList<T> {
    pub tabs: Vec<T>,
    pub active_tab: u32,
}

impl<T> TabList<T> {
    /// Tears tab `j` off to become a window of its own, when the window
    /// keeps at least one tab; the active index moves one back (unless it
    /// is the first).
    pub fn detach_tab(&mut self, j: usize) -> (t: Option<T>)
        requires
            j < old(self).tabs@.len(),
        ensures
            old(self).tabs@.len() > 1 ==> {
                &&& t == Some(old(self).tabs@[j as int])
                &&& final(self).tabs@ == old(self).tabs@.remove(j as int)
                &&& final(self).active_tab == if old(self).active_tab != 0 {
                    (old(self).active_tab - 1) as u32
                } else {
                    0
                }
            },
            old(self).tabs@.len() <= 1 ==> t is None && final(self).tabs@ == old(self).tabs@
                && final(self).active_tab == old(self).active_tab,
    {
        if self.tabs.len() > 1 {
            let tab = self.tabs.remove(j);
            if self.active_tab != 0 {
                self.active_tab = self.active_tab - 1;
            }
            Some(tab)
        } else {
            None
        }
    }

    /// Takes over the tabs of a window dropped onto this one, after its own
    /// tabs; the first of them becomes active.
    pub fn merge_tabs(&mut self, other: Vec<T>)
        ensures
            final(self).tabs@ == old(self).tabs@ + other@,
            final(self).active_tab == (old(self).tabs@.len() as u32),
    {
        let n = self.tabs.len();
        let mut other = other;
        self.tabs.append(&mut other);
        #[verifier::truncate]
        let active = n as u32;
        self.active_tab = active;
    }

    /// What pressing on a tab drags: the tab itself, or the whole window
    /// when it is the only tab.
    pub fn drags_tab(&self) -> (r: bool)
        ensures
            r == (self.tabs@.len() > 1),
    {
        self.tabs.len() > 1
    }
}

} // verus!
