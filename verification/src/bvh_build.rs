//! Building the lowest level of a bounding volume hierarchy: the leaves are
//! ordered along the Morton curve and packed eight to a node.
use crate::bvh::{
    lemma_aabbs_upto, lemma_opt_bytes_len, payload_upto, AabbBytes, ChildData, ChildType,
    HasNode, NodeBuilder,
};
use crate::windows::lex_lt;
use vstd::prelude::*;

verus! {

/// A child to be placed into the hierarchy, with the Morton code of its
/// box's center.
#[derive(Clone, Copy, Debug)]
pub struct LeafData {
    pub data: ChildData,
    pub typ: ChildType,
    pub mortan_code: u64,
    pub aabb: AabbBytes,
}

/// `slice::sort_by_key` with the key `.0`, a stable sort: pairs whose
/// indices `.1` come in increasing order end up ordered by key and then by
/// index, and the vector keeps its pairs.
#[verifier::external_body]
fn sort_by_code(items: &mut Vec<(u64, usize)>)
    requires
        forall|i: int, j: int| 0 <= i < j < old(items)@.len() ==> old(items)@[i].1 < old(items)@[j].1,
    ensures
        final(items)@.len() == old(items)@.len(),
        forall|x: (u64, usize)| final(items)@.contains(x) <==> old(items)@.contains(x),
        forall|i: int, j: int| 0 <= i < j < final(items)@.len() ==> lex_lt(final(items)@[i], final(items)@[j]),
{
    items.sort_by_key(|e| e.0)
}

/// `order` lists the indices `0..codes.len()` by Morton code, equal codes
/// in index order.
pub open spec fn is_morton_order(codes: Seq<u64>, order: Seq<usize>) -> bool {
    &&& order.len() == codes.len()
    &&& forall|i: int| 0 <= i < order.len() ==> #[trigger] order[i] < codes.len()
    &&& forall|i: int, j: int|
        #![trigger order[i], order[j]]
        0 <= i < j < order.len() ==> lex_lt(
            (codes[order[i] as int], order[i]),
            (codes[order[j] as int], order[j]),
        )
}

/// The Morton codes of the leaves.
pub open spec fn codes_of(leafs: Seq<LeafData>) -> Seq<u64> {
    leafs.map_values(|l: LeafData| l.mortan_code)
}

/// The number of children of group `g` when `n` children are packed
/// eight to a node.
pub open spec fn group_len(n: int, g: int) -> int {
    if n - 8 * g >= 8 {
        8
    } else {
        n - 8 * g
    }
}

/// Group `g` holds the leaves at positions `8 * g ..` of `order`, in slot
/// order, and its other slots are empty.
pub open spec fn holds_group(b: NodeBuilder, leafs: Seq<LeafData>, order: Seq<usize>, g: int) -> bool {
    &&& b.wf()
    &&& b.child_offset == group_len(leafs.len() as int, g)
    &&& forall|j: int|
        0 <= j < b.child_offset ==> {
            let l = leafs[order[8 * g + j] as int];
            &&& #[trigger] b.child_data@[j] == Some(l.data)
            &&& b.child_mask@[j] == l.typ.spec_code()
            &&& b.child_aabbs@[j] == l.aabb
        }
    &&& forall|j: int|
        b.child_offset <= j < 8 ==> #[trigger] b.child_aabbs@[j]@ == Seq::new(32, |k: int| 0u8)
}

/// The indices `0..codes.len()` ordered by code, equal codes in index
/// order.
pub fn morton_order(codes: &Vec<u64>) -> (order: Vec<usize>)
    ensures
        is_morton_order(codes@, order@),
{
    let n = codes.len();
    let mut keyed: Vec<(u64, usize)> = Vec::new();
    let mut i: usize = 0;
    while i < n
        invariant
            n == codes@.len(),
            i <= n,
            keyed@.len() == i,
            forall|k: int| 0 <= k < i ==> #[trigger] keyed@[k] == (codes@[k], k as usize),
        decreases n - i,
    {
        keyed.push((codes[i], i));
        i = i + 1;
    }
    let ghost unsorted = keyed@;
    sort_by_code(&mut keyed);
    let mut order: Vec<usize> = Vec::new();
    let mut p: usize = 0;
    while p < keyed.len()
        invariant
            p <= keyed@.len(),
            order@.len() == p,
            forall|k: int| 0 <= k < p ==> #[trigger] order@[k] == keyed@[k].1,
        decreases keyed@.len() - p,
    {
        order.push(keyed[p].1);
        p = p + 1;
    }
    proof {
        assert forall|k: int| 0 <= k < order@.len() implies #[trigger] order@[k] < codes@.len() && keyed@[k].0
            == codes@[order@[k] as int] by {
            assert(keyed@.contains(keyed@[k]));
            assert(unsorted.contains(keyed@[k]));
            let m = choose|m: int| 0 <= m < unsorted.len() && unsorted[m] == keyed@[k];
        }
        assert forall|a: int, b: int|
            #![trigger order@[a], order@[b]]
            0 <= a < b < order@.len() implies lex_lt(
            (codes@[order@[a] as int], order@[a]),
            (codes@[order@[b] as int], order@[b]),
        ) by {
            assert(lex_lt(keyed@[a], keyed@[b]));
            assert(order@[a] < codes@.len() && keyed@[a].0 == codes@[order@[a] as int]);
            assert(order@[b] < codes@.len() && keyed@[b].0 == codes@[order@[b] as int]);
        }
    }
    order
}

/// Orders the leaves along the Morton curve (equal codes keep their order)
/// and packs them eight to a node, the last node taking what is left; no
/// leaves give no nodes. Each leaf's type must be its payload's kind.
pub fn build_intial_nodes(leafs: &Vec<LeafData>) -> (nodes: Vec<NodeBuilder>)
    requires
        forall|i: int| 0 <= i < leafs@.len() ==> (#[trigger] leafs@[i]).data.spec_type() == leafs@[i].typ,
    ensures
        nodes@.len() == (leafs@.len() + 7) / 8,
        exists|order: Seq<usize>|
            is_morton_order(codes_of(leafs@), order) && forall|g: int|
                0 <= g < nodes@.len() ==> holds_group(#[trigger] nodes@[g], leafs@, order, g),
{
    let n = leafs.len();
    let mut codes_v: Vec<u64> = Vec::new();
    let mut i: usize = 0;
    while i < n
        invariant
            n == leafs@.len(),
            i <= n,
            codes_v@ == codes_of(leafs@).subrange(0, i as int),
        decreases n - i,
    {
        codes_v.push(leafs[i].mortan_code);
        i = i + 1;
        proof {
            assert(codes_v@ =~= codes_of(leafs@).subrange(0, i as int));
        }
    }
    proof {
        assert(codes_v@ =~= codes_of(leafs@));
    }
    let order_v = morton_order(&codes_v);
    let ghost order = order_v@;
    let ghost codes = codes_of(leafs@);
    let mut nodes: Vec<NodeBuilder> = Vec::new();
    if n == 0 {
        proof {
            assert(forall|g: int|
                0 <= g < nodes@.len() ==> holds_group(#[trigger] nodes@[g], leafs@, order, g));
        }
        return nodes;
    }
    let mut builder = NodeBuilder::new();
    let mut p: usize = 0;
    while p < n
        invariant
            n == leafs@.len(),
            n > 0,
            p <= n,
            order_v@ == order,
            is_morton_order(codes, order),
            codes == codes_of(leafs@),
            forall|i: int| 0 <= i < leafs@.len() ==> (#[trigger] leafs@[i]).data.spec_type() == leafs@[i].typ,
            p == 0 ==> builder.child_offset == 0 && nodes@.len() == 0,
            p > 0 ==> nodes@.len() == (p - 1) / 8 && builder.child_offset == (p - 1) % 8 + 1,
            builder.wf(),
            forall|j: int|
                0 <= j < builder.child_offset ==> {
                    let l = leafs@[order[8 * (nodes@.len() as int) + j] as int];
                    &&& #[trigger] builder.child_data@[j] == Some(l.data)
                    &&& builder.child_mask@[j] == l.typ.spec_code()
                    &&& builder.child_aabbs@[j] == l.aabb
                }
            ,
            forall|j: int|
                builder.child_offset <= j < 8 ==> #[trigger] builder.child_aabbs@[j]@ == Seq::new(
                    32,
                    |k: int| 0u8,
                ),
            forall|g: int| 0 <= g < nodes@.len() ==> holds_group(#[trigger] nodes@[g], leafs@, order, g),
        decreases n - p,
    {
        if builder.child_offset == 8 {
            let ghost full = builder;
            nodes.push(builder);
            builder = NodeBuilder::new();
            proof {
                assert(holds_group(full, leafs@, order, (nodes@.len() - 1) as int));
                assert forall|g: int| 0 <= g < nodes@.len() implies holds_group(#[trigger] nodes@[g], leafs@, order, g) by {
                    if g == nodes@.len() - 1 {
                        assert(nodes@[g] == full);
                    }
                }
            }
        }
        let idx = order_v[p];
        let leaf = leafs[idx];
        let ghost before = builder;
        builder = builder.push_child(Some(leaf.data), leaf.typ, leaf.aabb);
        proof {
            assert(8 * (nodes@.len() as int) + before.child_offset == p);
            assert forall|j: int| 0 <= j < builder.child_offset implies {
                let l = leafs@[order[8 * (nodes@.len() as int) + j] as int];
                &&& #[trigger] builder.child_data@[j] == Some(l.data)
                &&& builder.child_mask@[j] == l.typ.spec_code()
                &&& builder.child_aabbs@[j] == l.aabb
            } by {
                if j < before.child_offset {
                    assert(builder.child_data@[j] == before.child_data@[j]);
                } else {
                    assert(8 * (nodes@.len() as int) + j == p);
                }
            }
            assert forall|j: int|
                builder.child_offset <= j < 8 implies #[trigger] builder.child_aabbs@[j]@ == Seq::new(
                32,
                |k: int| 0u8,
            ) by {
                assert(builder.child_aabbs@[j] == before.child_aabbs@[j]);
            }
        }
        p = p + 1;
    }
    let ghost last = builder;
    nodes.push(builder);
    proof {
        assert forall|g: int| 0 <= g < nodes@.len() implies holds_group(#[trigger] nodes@[g], leafs@, order, g) by {
            if g == nodes@.len() - 1 {
                assert(nodes@[g] == last);
                assert(holds_group(last, leafs@, order, g));
            }
        }
    }
    nodes
}

/// The payload bytes of `k` slots are a whole number of 8 byte words, at
/// most 48 bytes per slot.
proof fn lemma_payload_len(datas: Seq<Option<ChildData>>, k: nat)
    ensures
        payload_upto(datas, k).len() % 8 == 0,
        payload_upto(datas, k).len() <= 48 * k,
    decreases k,
{
    if k > 0 {
        lemma_payload_len(datas, (k - 1) as nat);
        lemma_opt_bytes_len(datas[k - 1]);
    }
}

/// A node takes a whole number of 8 byte words, at most 648 bytes.
proof fn lemma_node_bytes_len(b: NodeBuilder)
    ensures
        b.spec_bytes().len() % 8 == 0,
        b.spec_bytes().len() <= 648,
{
    lemma_payload_len(b.child_data@, 8);
    lemma_aabbs_upto(b.child_aabbs@, 8);
}

/// The bytes of the first `k` nodes of a level, in Morton order.
pub open spec fn level_bytes(nodes: Seq<(NodeBuilder, u64, AabbBytes)>, order: Seq<usize>, k: int) -> Seq<u8>
    decreases k,
{
    if k <= 0 {
        seq![]
    } else {
        level_bytes(nodes, order, k - 1) + nodes[order[k - 1] as int].0.spec_bytes()
    }
}

/// Group `g` of a level points at the nodes at positions `8 * g ..` of
/// `order`, written from byte `base` on one after another, with their
/// boxes.
pub open spec fn holds_node_group(
    b: NodeBuilder,
    nodes: Seq<(NodeBuilder, u64, AabbBytes)>,
    order: Seq<usize>,
    base: int,
    g: int,
) -> bool {
    &&& b.wf()
    &&& b.child_offset == group_len(nodes.len() as int, g)
    &&& forall|j: int|
        0 <= j < b.child_offset ==> {
            &&& #[trigger] b.child_data@[j] == Some(
                ChildData::HasNode(HasNode { ptr: (base + level_bytes(nodes, order, 8 * g + j).len()) as usize }),
            )
            &&& b.child_aabbs@[j] == nodes[order[8 * g + j] as int].2
        }
    &&& forall|j: int|
        b.child_offset <= j < 8 ==> #[trigger] b.child_aabbs@[j]@ == Seq::new(32, |k: int| 0u8)
}

/// The Morton codes of a level's nodes.
pub open spec fn node_codes(nodes: Seq<(NodeBuilder, u64, AabbBytes)>) -> Seq<u64> {
    nodes.map_values(|x: (NodeBuilder, u64, AabbBytes)| x.1)
}

/// One level up the hierarchy: the nodes, ordered along the Morton curve,
/// are written to `data` one after another and packed eight to a new node
/// that points at them.
pub fn pack_level(nodes: &Vec<(NodeBuilder, u64, AabbBytes)>, data: &mut Vec<u8>) -> (groups: Vec<NodeBuilder>)
    requires
        forall|i: int| 0 <= i < nodes@.len() ==> (#[trigger] nodes@[i]).0.wf(),
        old(data)@.len() % 8 == 0,
        old(data)@.len() + 648 * nodes@.len() <= usize::MAX,
    ensures
        groups@.len() == (nodes@.len() + 7) / 8,
        exists|order: Seq<usize>|
            {
                &&& is_morton_order(node_codes(nodes@), order)
                &&& final(data)@ == old(data)@ + level_bytes(nodes@, order, nodes@.len() as int)
                &&& forall|g: int|
                    0 <= g < groups@.len() ==> holds_node_group(
                        #[trigger] groups@[g],
                        nodes@,
                        order,
                        old(data)@.len() as int,
                        g,
                    )
            },
{
    let n = nodes.len();
    let mut codes_v: Vec<u64> = Vec::new();
    let mut i: usize = 0;
    while i < n
        invariant
            n == nodes@.len(),
            i <= n,
            codes_v@ == node_codes(nodes@).subrange(0, i as int),
        decreases n - i,
    {
        codes_v.push(nodes[i].1);
        i = i + 1;
        proof {
            assert(codes_v@ =~= node_codes(nodes@).subrange(0, i as int));
        }
    }
    proof {
        assert(codes_v@ =~= node_codes(nodes@));
    }
    let order_v = morton_order(&codes_v);
    let ghost order = order_v@;
    let ghost base = data@.len() as int;
    let mut groups: Vec<NodeBuilder> = Vec::new();
    if n == 0 {
        proof {
            assert(data@ =~= old(data)@ + level_bytes(nodes@, order, 0));
        }
        return groups;
    }
    let mut builder = NodeBuilder::new();
    let mut p: usize = 0;
    while p < n
        invariant
            n == nodes@.len(),
            n > 0,
            p <= n,
            order_v@ == order,
            is_morton_order(node_codes(nodes@), order),
            forall|i: int| 0 <= i < nodes@.len() ==> (#[trigger] nodes@[i]).0.wf(),
            base == old(data)@.len(),
            base + 648 * n <= usize::MAX,
            data@ == old(data)@ + level_bytes(nodes@, order, p as int),
            level_bytes(nodes@, order, p as int).len() <= 648 * p,
            data@.len() % 8 == 0,
            p == 0 ==> builder.child_offset == 0 && groups@.len() == 0,
            p > 0 ==> groups@.len() == (p - 1) / 8 && builder.child_offset == (p - 1) % 8 + 1,
            builder.wf(),
            forall|j: int|
                0 <= j < builder.child_offset ==> {
                    &&& #[trigger] builder.child_data@[j] == Some(
                        ChildData::HasNode(
                            HasNode {
                                ptr: (base + level_bytes(nodes@, order, 8 * (groups@.len() as int) + j).len()) as usize,
                            },
                        ),
                    )
                    &&& builder.child_aabbs@[j] == nodes@[order[8 * (groups@.len() as int) + j] as int].2
                },
            forall|j: int|
                builder.child_offset <= j < 8 ==> #[trigger] builder.child_aabbs@[j]@ == Seq::new(
                    32,
                    |k: int| 0u8,
                ),
            forall|g: int|
                0 <= g < groups@.len() ==> holds_node_group(#[trigger] groups@[g], nodes@, order, base, g),
        decreases n - p,
    {
        if builder.child_offset == 8 {
            let ghost full = builder;
            groups.push(builder);
            builder = NodeBuilder::new();
            proof {
                assert(holds_node_group(full, nodes@, order, base, (groups@.len() - 1) as int));
                assert forall|g: int| 0 <= g < groups@.len() implies holds_node_group(
                    #[trigger] groups@[g],
                    nodes@,
                    order,
                    base,
                    g,
                ) by {
                    if g == groups@.len() - 1 {
                        assert(groups@[g] == full);
                    }
                }
            }
        }
        let idx = order_v[p];
        let node = nodes[idx];
        proof {
            assert(nodes@[idx as int].0.wf());
            lemma_node_bytes_len(node.0);
        }
        let ghost before_data = data@;
        let ptr = node.0.build(data);
        proof {
            assert(data@ =~= old(data)@ + level_bytes(nodes@, order, p + 1));
            assert(ptr == base + level_bytes(nodes@, order, p as int).len());
        }
        let ghost before = builder;
        builder = builder.push_node_child(HasNode { ptr }, node.2);
        proof {
            assert(8 * (groups@.len() as int) + before.child_offset == p);
            assert forall|j: int| 0 <= j < builder.child_offset implies {
                &&& #[trigger] builder.child_data@[j] == Some(
                    ChildData::HasNode(
                        HasNode {
                            ptr: (base + level_bytes(nodes@, order, 8 * (groups@.len() as int) + j).len()) as usize,
                        },
                    ),
                )
                &&& builder.child_aabbs@[j] == nodes@[order[8 * (groups@.len() as int) + j] as int].2
            } by {
                if j < before.child_offset {
                    assert(builder.child_data@[j] == before.child_data@[j]);
                } else {
                    assert(8 * (groups@.len() as int) + j == p);
                }
            }
            assert forall|j: int|
                builder.child_offset <= j < 8 implies #[trigger] builder.child_aabbs@[j]@ == Seq::new(
                32,
                |k: int| 0u8,
            ) by {
                assert(builder.child_aabbs@[j] == before.child_aabbs@[j]);
            }
        }
        p = p + 1;
    }
    let ghost last = builder;
    groups.push(builder);
    proof {
        assert forall|g: int| 0 <= g < groups@.len() implies holds_node_group(
            #[trigger] groups@[g],
            nodes@,
            order,
            base,
            g,
        ) by {
            if g == groups@.len() - 1 {
                assert(groups@[g] == last);
            }
        }
    }
    groups
}

/// No leaf is lost or doubled: a Morton order lists every index exactly
/// once.
pub proof fn lemma_morton_order_complete(codes: Seq<u64>, order: Seq<usize>)
    requires
        is_morton_order(codes, order),
    ensures
        forall|i: int, j: int| 0 <= i < j < order.len() ==> order[i] != order[j],
        forall|k: usize| k < codes.len() ==> #[trigger] order.contains(k),
{
    broadcast use vstd::set::group_set_axioms, vstd::seq_lib::group_seq_properties;

    let n = codes.len() as int;
    assert forall|i: int, j: int| 0 <= i < j < order.len() implies order[i] != order[j] by {
        assert(lex_lt((codes[order[i] as int], order[i]), (codes[order[j] as int], order[j])));
    }
    let oi = order.map_values(|x: usize| x as int);
    assert(oi.no_duplicates()) by {
        assert forall|i: int, j: int| 0 <= i < oi.len() && 0 <= j < oi.len() && i != j implies oi[i]
            != oi[j] by {
            if i < j {
                assert(order[i] != order[j]);
            } else {
                assert(order[j] != order[i]);
            }
        }
    }
    oi.unique_seq_to_set();
    let full = vstd::set_lib::set_int_range(0, n);
    vstd::set_lib::lemma_int_range(0, n);
    assert(oi.to_set().subset_of(full)) by {
        assert forall|x: int| oi.to_set().contains(x) implies full.contains(x) by {
            assert(oi.contains(x));
            let i = choose|i: int| 0 <= i < oi.len() && oi[i] == x;
            assert(order[i] < codes.len());
        }
    }
    vstd::set_lib::lemma_subset_equality(oi.to_set(), full);
    assert forall|k: usize| k < codes.len() implies #[trigger] order.contains(k) by {
        assert(full.contains(k as int));
        assert(oi.to_set().contains(k as int));
        assert(oi.contains(k as int));
        let i = choose|i: int| 0 <= i < oi.len() && oi[i] == k as int;
        assert(order[i] == k);
    }
}

} // verus!
