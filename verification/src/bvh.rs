//! The byte layout of a bounding volume hierarchy node and its builder and
//! reader.
//!
//! A node is stored at an offset that is a multiple of 8 and consists of
//! - a mask of 8 bytes, one type code per child slot,
//! - 8 bounding boxes of 32 bytes each (stored as raw bytes),
//! - the payload of every occupied child, in slot order.
//!
//! Integers are stored little endian; a child's payload is 8 bytes for an
//! interior node pointer, 16 bytes for a bottom level structure reference and
//! 48 bytes for a triangle.
use vstd::prelude::*;
use vstd::std_specs::bits::u64_trailing_zeros;

verus! {

/// Size of the mask that starts every node.
pub const MASK_BYTES: usize = 8;

/// Size of one bounding box as stored in a node.
pub const AABB_BYTES: usize = 32;

/// Offset, from the node's start, of the first child payload.
pub const HEADER_BYTES: usize = 264;

/// The raw bytes of one bounding box: `max.xyz, 0, min.xyz, 0` as four byte
/// floats.
pub type AabbBytes = [u8; 32];

/// What a child slot of a node holds.
#[derive(Clone, Copy, PartialEq, Eq, Structural, Debug)]
pub enum ChildType {
    Empty,
    HasBlas,
    HasLeaf,
    HasNode,
}

impl ChildType {
    /// The code of this kind in a node's mask.
    pub open spec fn spec_code(self) -> u8 {
        match self {
            ChildType::Empty => 0u8,
            ChildType::HasBlas => 3u8,
            ChildType::HasLeaf => 5u8,
            ChildType::HasNode => 9u8,
        }
    }

    /// The kind that a mask byte stands for, if any.
    pub open spec fn spec_from_code(c: u8) -> Option<ChildType> {
        if c == 0 {
            Some(ChildType::Empty)
        } else if c == 3 {
            Some(ChildType::HasBlas)
        } else if c == 5 {
            Some(ChildType::HasLeaf)
        } else if c == 9 {
            Some(ChildType::HasNode)
        } else {
            None
        }
    }

    /// Number of payload bytes of a child of this kind.
    pub open spec fn spec_size(self) -> nat {
        match self {
            ChildType::Empty => 0,
            ChildType::HasBlas => 16,
            ChildType::HasLeaf => 48,
            ChildType::HasNode => 8,
        }
    }

    pub fn code(&self) -> (c: u8)
        ensures
            c == self.spec_code(),
    {
        match self {
            ChildType::Empty => 0,
            ChildType::HasBlas => 3,
            ChildType::HasLeaf => 5,
            ChildType::HasNode => 9,
        }
    }

    pub fn from_code(c: u8) -> (t: Option<ChildType>)
        ensures
            t == Self::spec_from_code(c),
    {
        if c == 0 {
            Some(ChildType::Empty)
        } else if c == 3 {
            Some(ChildType::HasBlas)
        } else if c == 5 {
            Some(ChildType::HasLeaf)
        } else if c == 9 {
            Some(ChildType::HasNode)
        } else {
            None
        }
    }

    pub fn size(&self) -> (s: usize)
        ensures
            s == self.spec_size(),
    {
        match self {
            ChildType::Empty => 0,
            ChildType::HasBlas => 16,
            ChildType::HasLeaf => 48,
            ChildType::HasNode => 8,
        }
    }
}

/// A child that is itself an interior node, found at byte offset `ptr`.
#[derive(Clone, Copy, PartialEq, Eq, Structural, Debug)]
pub struct HasNode {
    pub ptr: usize,
}

/// A child that refers to the bottom level structure of a mesh instance: the
/// root node of the mesh's hierarchy and the instance's entity (its bits).
#[derive(Clone, Copy, PartialEq, Eq, Structural, Debug)]
pub struct HasBlas {
    pub blas_root_node_index: usize,
    pub entity: u64,
}

/// A child that is a triangle; its three vertices as raw bytes (three times
/// four floats).
#[derive(Clone, Copy, Debug)]
pub struct HasLeaf {
    pub triangle: [u8; 48],
}

/// The payload of an occupied child slot.
#[derive(Clone, Copy, Debug)]
pub enum ChildData {
    HasBlas(HasBlas),
    HasLeaf(HasLeaf),
    HasNode(HasNode),
}

impl ChildData {
    /// The kind of child that this payload belongs to.
    pub open spec fn spec_type(self) -> ChildType {
        match self {
            ChildData::HasBlas(_) => ChildType::HasBlas,
            ChildData::HasLeaf(_) => ChildType::HasLeaf,
            ChildData::HasNode(_) => ChildType::HasNode,
        }
    }

    /// The bytes that store this payload in a node.
    pub open spec fn spec_bytes(self) -> Seq<u8> {
        match self {
            ChildData::HasBlas(b) => le64(b.blas_root_node_index as u64) + le64(b.entity),
            ChildData::HasLeaf(l) => l.triangle@,
            ChildData::HasNode(n) => le64(n.ptr as u64),
        }
    }
}

/// The little endian bytes of `x`.
pub open spec fn le64(x: u64) -> Seq<u8> {
    seq![
        (x & 0xff) as u8,
        ((x >> 8u64) & 0xff) as u8,
        ((x >> 16u64) & 0xff) as u8,
        ((x >> 24u64) & 0xff) as u8,
        ((x >> 32u64) & 0xff) as u8,
        ((x >> 40u64) & 0xff) as u8,
        ((x >> 48u64) & 0xff) as u8,
        ((x >> 56u64) & 0xff) as u8,
    ]
}

/// The integer whose little endian bytes are `b0, .., b7`.
pub open spec fn from_le(b0: u8, b1: u8, b2: u8, b3: u8, b4: u8, b5: u8, b6: u8, b7: u8) -> u64 {
    (b0 as u64) | ((b1 as u64) << 8u64) | ((b2 as u64) << 16u64) | ((b3 as u64) << 24u64) | ((
    b4 as u64) << 32u64) | ((b5 as u64) << 40u64) | ((b6 as u64) << 48u64) | ((b7 as u64)
        << 56u64)
}

/// The integer stored little endian at `s[at..at + 8]`.
pub open spec fn read_le64(s: Seq<u8>, at: int) -> u64 {
    from_le(s[at], s[at + 1], s[at + 2], s[at + 3], s[at + 4], s[at + 5], s[at + 6], s[at + 7])
}

/// Reading back the bytes of an integer gives the integer.
pub proof fn lemma_le64_roundtrip(x: u64)
    ensures
        read_le64(le64(x), 0) == x,
        le64(x).len() == 8,
{
    let b0 = (x & 0xff) as u8;
    let b1 = ((x >> 8u64) & 0xff) as u8;
    let b2 = ((x >> 16u64) & 0xff) as u8;
    let b3 = ((x >> 24u64) & 0xff) as u8;
    let b4 = ((x >> 32u64) & 0xff) as u8;
    let b5 = ((x >> 40u64) & 0xff) as u8;
    let b6 = ((x >> 48u64) & 0xff) as u8;
    let b7 = ((x >> 56u64) & 0xff) as u8;
    assert(from_le(b0, b1, b2, b3, b4, b5, b6, b7) == x) by (bit_vector)
        requires
            b0 == (x & 0xff) as u8,
            b1 == ((x >> 8u64) & 0xff) as u8,
            b2 == ((x >> 16u64) & 0xff) as u8,
            b3 == ((x >> 24u64) & 0xff) as u8,
            b4 == ((x >> 32u64) & 0xff) as u8,
            b5 == ((x >> 40u64) & 0xff) as u8,
            b6 == ((x >> 48u64) & 0xff) as u8,
            b7 == ((x >> 56u64) & 0xff) as u8,
    ;
}

/// Appends the little endian bytes of `x`.
pub(crate) fn push_le64(data: &mut Vec<u8>, x: u64)
    ensures
        final(data)@ == old(data)@ + le64(x),
{
    data.push((x & 0xff) as u8);
    data.push(((x >> 8u64) & 0xff) as u8);
    data.push(((x >> 16u64) & 0xff) as u8);
    data.push(((x >> 24u64) & 0xff) as u8);
    data.push(((x >> 32u64) & 0xff) as u8);
    data.push(((x >> 40u64) & 0xff) as u8);
    data.push(((x >> 48u64) & 0xff) as u8);
    data.push(((x >> 56u64) & 0xff) as u8);
    assert(data@ =~= old(data)@ + le64(x));
}

/// Reads the integer stored little endian at `data[at..at + 8]`.
pub(crate) fn get_le64(data: &[u8], at: usize) -> (x: u64)
    requires
        at + 8 <= data@.len(),
    ensures
        x == read_le64(data@, at as int),
{
    (data[at] as u64) | ((data[at + 1] as u64) << 8u64) | ((data[at + 2] as u64) << 16u64) | ((
    data[at + 3] as u64) << 24u64) | ((data[at + 4] as u64) << 32u64) | ((data[at + 5] as u64)
        << 40u64) | ((data[at + 6] as u64) << 48u64) | ((data[at + 7] as u64) << 56u64)
}

/// Appends all bytes of `bytes`.
pub(crate) fn push_bytes(data: &mut Vec<u8>, bytes: &[u8])
    ensures
        final(data)@ == old(data)@ + bytes@,
{
    let mut i: usize = 0;
    while i < bytes.len()
        invariant
            i <= bytes@.len(),
            data@ == old(data)@ + bytes@.subrange(0, i as int),
        decreases bytes@.len() - i,
    {
        data.push(bytes[i]);
        i = i + 1;
        assert(data@ =~= old(data)@ + bytes@.subrange(0, i as int));
    }
    assert(bytes@.subrange(0, bytes@.len() as int) =~= bytes@);
}

/// The bytes of an optional payload: nothing for an empty slot.
pub open spec fn opt_bytes(d: Option<ChildData>) -> Seq<u8> {
    match d {
        Some(d) => d.spec_bytes(),
        None => Seq::empty(),
    }
}

/// The payload bytes of the first `k` child slots, in slot order.
pub open spec fn payload_upto(datas: Seq<Option<ChildData>>, k: nat) -> Seq<u8>
    decreases k,
{
    if k == 0 {
        Seq::empty()
    } else {
        payload_upto(datas, (k - 1) as nat) + opt_bytes(datas[k - 1])
    }
}

/// The box bytes of the first `k` child slots, in slot order.
pub open spec fn aabbs_upto(aabbs: Seq<AabbBytes>, k: nat) -> Seq<u8>
    decreases k,
{
    if k == 0 {
        Seq::empty()
    } else {
        aabbs_upto(aabbs, (k - 1) as nat) + aabbs[k - 1]@
    }
}

/// Collects the children of one node before it is written out.
#[derive(Clone, Copy, Debug)]
pub struct NodeBuilder {
    pub child_mask: [u8; 8],
    pub child_data: [Option<ChildData>; 8],
    pub child_aabbs: [AabbBytes; 8],
    pub child_offset: usize,
}

impl NodeBuilder {
    /// The children are pushed in slot order: slot `i` holds a payload whose
    /// kind is the mask byte `i` for `i < child_offset`, and the slots after
    /// them are empty.
    pub open spec fn wf(self) -> bool {
        &&& self.child_offset <= 8
        &&& forall|i: int|
            0 <= i < self.child_offset ==> (#[trigger] self.child_data@[i] matches Some(d)
                && self.child_mask@[i] == d.spec_type().spec_code())
        &&& forall|i: int|
            self.child_offset <= i < 8 ==> #[trigger] self.child_data@[i] is None
                && self.child_mask@[i] == 0
    }

    /// The bytes that `build` appends for this node.
    pub open spec fn spec_bytes(self) -> Seq<u8> {
        self.child_mask@ + aabbs_upto(self.child_aabbs@, 8) + payload_upto(self.child_data@, 8)
    }

    /// An empty node: no children, every box zero.
    pub fn new() -> (b: Self)
        ensures
            b.wf(),
            b.child_offset == 0,
            forall|i: int| 0 <= i < 8 ==> #[trigger] b.child_aabbs@[i]@ == Seq::new(32, |j: int| 0u8),
    {
        let b = NodeBuilder {
            child_aabbs: [[0u8; 32]; 8],
            child_data: [None; 8],
            child_mask: [0u8; 8],
            child_offset: 0,
        };
        assert forall|i: int| 0 <= i < 8 implies #[trigger] b.child_aabbs@[i]@ == Seq::new(
            32,
            |j: int| 0u8,
        ) by {
            assert(b.child_aabbs@[i]@ =~= Seq::new(32, |j: int| 0u8));
        }
        b
    }

    /// Puts a child into the next free slot.
    pub fn push_child(self, child_data: Option<ChildData>, child_type: ChildType, aabb: AabbBytes) -> (b: Self)
        requires
            self.child_offset < 8,
        ensures
            b.child_offset == self.child_offset + 1,
            b.child_data@ == self.child_data@.update(self.child_offset as int, child_data),
            b.child_mask@ == self.child_mask@.update(self.child_offset as int, child_type.spec_code()),
            b.child_aabbs@ == self.child_aabbs@.update(self.child_offset as int, aabb),
            self.wf() && (child_data matches Some(d) && d.spec_type() == child_type) ==> b.wf(),
    {
        let mut b = self;
        let i = b.child_offset;
        b.child_data[i] = child_data;
        b.child_mask[i] = child_type.code();
        b.child_aabbs[i] = aabb;
        b.child_offset = i + 1;
        b
    }

    /// Puts a triangle into the next free slot.
    pub fn push_leaf_child(self, data: HasLeaf, aabb: AabbBytes) -> (b: Self)
        requires
            self.child_offset < 8,
        ensures
            b.child_offset == self.child_offset + 1,
            b.child_data@ == self.child_data@.update(self.child_offset as int, Some(ChildData::HasLeaf(data))),
            b.child_mask@ == self.child_mask@.update(self.child_offset as int, ChildType::HasLeaf.spec_code()),
            b.child_aabbs@ == self.child_aabbs@.update(self.child_offset as int, aabb),
            self.wf() ==> b.wf(),
    {
        self.push_child(Some(ChildData::HasLeaf(data)), ChildType::HasLeaf, aabb)
    }

    /// Puts a reference to a bottom level structure into the next free slot.
    pub fn push_blas_child(self, data: HasBlas, aabb: AabbBytes) -> (b: Self)
        requires
            self.child_offset < 8,
        ensures
            b.child_offset == self.child_offset + 1,
            b.child_data@ == self.child_data@.update(self.child_offset as int, Some(ChildData::HasBlas(data))),
            b.child_mask@ == self.child_mask@.update(self.child_offset as int, ChildType::HasBlas.spec_code()),
            b.child_aabbs@ == self.child_aabbs@.update(self.child_offset as int, aabb),
            self.wf() ==> b.wf(),
    {
        self.push_child(Some(ChildData::HasBlas(data)), ChildType::HasBlas, aabb)
    }

    /// Puts a pointer to an interior node into the next free slot; nodes
    /// start at multiples of 8.
    pub fn push_node_child(self, data: HasNode, aabb: AabbBytes) -> (b: Self)
        requires
            self.child_offset < 8,
            data.ptr % 8 == 0,
        ensures
            b.child_offset == self.child_offset + 1,
            b.child_data@ == self.child_data@.update(self.child_offset as int, Some(ChildData::HasNode(data))),
            b.child_mask@ == self.child_mask@.update(self.child_offset as int, ChildType::HasNode.spec_code()),
            b.child_aabbs@ == self.child_aabbs@.update(self.child_offset as int, aabb),
            self.wf() ==> b.wf(),
    {
        self.push_child(Some(ChildData::HasNode(data)), ChildType::HasNode, aabb)
    }

    /// Appends the node to `data` and returns the offset where it starts.
    pub fn build(self, data: &mut Vec<u8>) -> (ptr: usize)
        requires
            old(data)@.len() % 8 == 0,
            old(data)@.len() + 648 <= usize::MAX,
        ensures
            ptr == old(data)@.len(),
            final(data)@ == old(data)@ + self.spec_bytes(),
    {
        let ptr = data.len();
        push_bytes(data, self.child_mask.as_slice());
        let mut i: usize = 0;
        while i < 8
            invariant
                i <= 8,
                data@ == old(data)@ + self.child_mask@ + aabbs_upto(self.child_aabbs@, i as nat),
            decreases 8 - i,
        {
            push_bytes(data, self.child_aabbs[i].as_slice());
            i = i + 1;
            assert(data@ =~= old(data)@ + self.child_mask@ + aabbs_upto(self.child_aabbs@, i as nat));
        }
        let mut i: usize = 0;
        while i < 8
            invariant
                i <= 8,
                data@ == old(data)@ + self.child_mask@ + aabbs_upto(self.child_aabbs@, 8)
                    + payload_upto(self.child_data@, i as nat),
            decreases 8 - i,
        {
            let ghost before = data@;
            match self.child_data[i] {
                Some(ChildData::HasNode(n)) => {
                    push_le64(data, n.ptr as u64);
                },
                Some(ChildData::HasBlas(b)) => {
                    push_le64(data, b.blas_root_node_index as u64);
                    push_le64(data, b.entity);
                },
                Some(ChildData::HasLeaf(l)) => {
                    push_bytes(data, l.triangle.as_slice());
                },
                None => {},
            }
            assert(data@ =~= before + opt_bytes(self.child_data@[i as int]));
            i = i + 1;
            assert(data@ =~= old(data)@ + self.child_mask@ + aabbs_upto(self.child_aabbs@, 8)
                + payload_upto(self.child_data@, i as nat));
        }
        ptr
    }
}

/// The kind of child `i` of the node stored at `off`, if its mask byte is a
/// valid code.
pub open spec fn node_type(data: Seq<u8>, off: int, i: int) -> Option<ChildType> {
    ChildType::spec_from_code(data[off + i])
}

/// Size of the payload of child `i` of the node at `off` (zero for an
/// invalid code).
pub open spec fn child_size(data: Seq<u8>, off: int, i: int) -> nat {
    match node_type(data, off, i) {
        Some(t) => t.spec_size(),
        None => 0,
    }
}

/// Offset, from the start of the node at `off`, of the payload of child `i`:
/// the header followed by the payloads of the children before it.
pub open spec fn payload_offset(data: Seq<u8>, off: int, i: nat) -> nat
    decreases i,
{
    if i == 0 {
        HEADER_BYTES as nat
    } else {
        payload_offset(data, off, (i - 1) as nat) + child_size(data, off, i - 1)
    }
}

/// `r` is what the bytes at `s[at..]` hold for a child of kind `t`.
pub open spec fn payload_decodes(s: Seq<u8>, at: int, t: ChildType, r: Option<ChildData>) -> bool {
    match t {
        ChildType::Empty => r is None,
        ChildType::HasBlas => r matches Some(ChildData::HasBlas(b)) && b.blas_root_node_index
            == read_le64(s, at) as usize && b.entity == read_le64(s, at + 8),
        ChildType::HasLeaf => r matches Some(ChildData::HasLeaf(l)) && l.triangle@ == s.subrange(
            at,
            at + 48,
        ),
        ChildType::HasNode => r matches Some(ChildData::HasNode(n)) && n.ptr == read_le64(s, at)
            as usize,
    }
}

/// The box of child `i` of the node at `off`, as raw bytes.
pub open spec fn node_aabb(data: Seq<u8>, off: int, i: int) -> Seq<u8> {
    data.subrange(off + 8 + 32 * i, off + 8 + 32 * i + 32)
}

/// Every part of the node at `off` can be read: its start is aligned, all
/// mask bytes are valid codes and header and payloads lie inside `data`.
pub open spec fn node_readable(data: Seq<u8>, off: int) -> bool {
    &&& 0 <= off
    &&& off % 8 == 0
    &&& off + HEADER_BYTES <= data.len()
    &&& forall|i: int| 0 <= i < 8 ==> #[trigger] node_type(data, off, i) is Some
    &&& off + payload_offset(data, off, 8) <= data.len()
}

/// A read only view of the node stored at `offset` in `data`.
pub struct NodeView<'a> {
    pub offset: usize,
    pub data: &'a [u8],
}

impl<'a> NodeView<'a> {
    pub fn new(data: &'a [u8], offset: usize) -> (v: Self)
        requires
            offset % 8 == 0,
        ensures
            v.offset == offset,
            v.data@ == data@,
    {
        NodeView { offset, data }
    }

    /// The node's mask as one integer; byte `i` is the code of child `i`.
    pub fn get_child_mask(&self) -> (m: u64)
        requires
            self.offset + 8 <= self.data@.len(),
        ensures
            m == read_le64(self.data@, self.offset as int),
    {
        get_le64(self.data, self.offset)
    }

    /// The number of child slots that the mask reports, counted from its
    /// lowest set bit.
    pub fn child_count(&self) -> (n: usize)
        requires
            self.offset + 8 <= self.data@.len(),
        ensures
            n == (64 - u64_trailing_zeros(read_le64(self.data@, self.offset as int))) / 8,
    {
        let child_mask = self.get_child_mask();
        ((64 - child_mask.trailing_zeros()) / 8) as usize
    }

    /// The kind of child `i`.
    pub fn get_type(&self, i: usize) -> (t: ChildType)
        requires
            i < 8,
            self.offset + 8 <= self.data@.len(),
            node_type(self.data@, self.offset as int, i as int) is Some,
        ensures
            node_type(self.data@, self.offset as int, i as int) == Some(t),
    {
        let child_mask = self.get_child_mask();
        let code = ((child_mask >> ((i * 8) as u64)) & 0xFF) as u8;
        proof {
            let d = self.data@;
            let o = self.offset as int;
            lemma_le64_byte(d[o], d[o + 1], d[o + 2], d[o + 3], d[o + 4], d[o + 5], d[o + 6], d[o + 7], i as u64);
        }
        ChildType::from_code(code).unwrap()
    }

    /// The payload of a child of kind `stype` stored `offset` bytes after the
    /// node's start.
    pub fn get_data_offset(&self, offset: usize, stype: ChildType) -> (r: Option<ChildData>)
        requires
            self.offset + offset + stype.spec_size() <= self.data@.len(),
        ensures
            payload_decodes(self.data@, self.offset + offset, stype, r),
    {
        let len = self.data.len();
        let at = self.offset + offset;
        match stype {
            ChildType::Empty => None,
            ChildType::HasBlas => {
                let root = get_le64(self.data, at);
                let entity = get_le64(self.data, at + 8);
                Some(ChildData::HasBlas(HasBlas { blas_root_node_index: #[verifier::truncate] (root as usize), entity }))
            },
            ChildType::HasLeaf => {
                let mut triangle = [0u8; 48];
                let mut j: usize = 0;
                while j < 48
                    invariant
                        j <= 48,
                        at + 48 <= len,
                        len == self.data@.len(),
                        forall|k: int| 0 <= k < j ==> triangle@[k] == self.data@[at + k],
                    decreases 48 - j,
                {
                    triangle[j] = self.data[at + j];
                    j = j + 1;
                }
                assert(triangle@ =~= self.data@.subrange(at as int, at + 48));
                Some(ChildData::HasLeaf(HasLeaf { triangle }))
            },
            ChildType::HasNode => {
                let ptr = get_le64(self.data, at);
                Some(ChildData::HasNode(HasNode { ptr: #[verifier::truncate] (ptr as usize) }))
            },
        }
    }

    /// The payload of child `i`.
    pub fn get_data(&self, i: usize) -> (r: Option<ChildData>)
        requires
            i < 8,
            self.offset + 8 <= self.data@.len(),
            forall|c: int| 0 <= c <= i ==> #[trigger] node_type(self.data@, self.offset as int, c) is Some,
            self.offset + payload_offset(self.data@, self.offset as int, (i + 1) as nat)
                <= self.data@.len(),
        ensures
            payload_decodes(
                self.data@,
                self.offset + payload_offset(self.data@, self.offset as int, i as nat),
                node_type(self.data@, self.offset as int, i as int).unwrap(),
                r,
            ),
    {
        let ghost d = self.data@;
        let ghost o = self.offset as int;
        proof {
            lemma_payload_offset_mono(d, o, i as nat, (i + 1) as nat);
        }
        let mut offset: usize = HEADER_BYTES;
        let mut c: usize = 0;
        while c < i
            invariant
                c <= i < 8,
                self.offset + 8 <= d.len(),
                d == self.data@,
                o == self.offset,
                forall|k: int| 0 <= k <= i ==> #[trigger] node_type(d, o, k) is Some,
                offset == payload_offset(d, o, c as nat),
                o + payload_offset(d, o, i as nat) <= d.len(),
            decreases i - c,
        {
            proof {
                lemma_payload_offset_mono(d, o, (c + 1) as nat, i as nat);
            }
            offset = offset + self.get_type(c).size();
            c = c + 1;
        }
        self.get_data_offset(offset, self.get_type(i))
    }

    /// The raw bytes of the box of child `i`.
    pub fn get_aabb(&self, i: usize) -> (a: AabbBytes)
        requires
            self.offset + 8 + i * 32 + 32 <= self.data@.len(),
        ensures
            a@ == node_aabb(self.data@, self.offset as int, i as int),
    {
        let _len = self.data.len();
        let at = self.offset + 8 + i * 32;
        let mut a = [0u8; 32];
        let mut j: usize = 0;
        while j < 32
            invariant
                j <= 32,
                at + 32 <= _len,
                _len == self.data@.len(),
                at == self.offset + 8 + i * 32,
                forall|k: int| 0 <= k < j ==> a@[k] == self.data@[at + k],
            decreases 32 - j,
        {
            a[j] = self.data[at + j];
            j = j + 1;
        }
        assert(a@ =~= node_aabb(self.data@, self.offset as int, i as int));
        a
    }

    /// An iterator over the children, in slot order, up to the first empty
    /// slot.
    pub fn child_iter(self) -> (it: ChildIter<'a>)
        ensures
            it.view == self,
            it.child == 0,
            it.data_offset == HEADER_BYTES,
    {
        ChildIter { data_offset: HEADER_BYTES, child: 0, view: self }
    }
}

/// Walks the children of a node.
pub struct ChildIter<'a> {
    pub data_offset: usize,
    pub child: usize,
    pub view: NodeView<'a>,
}

impl<'a> ChildIter<'a> {
    /// The iterator's position is consistent with the node it walks: it
    /// stands on slot `child` and its payload.
    pub open spec fn wf(self) -> bool {
        &&& node_readable(self.view.data@, self.view.offset as int)
        &&& self.child <= 8
        &&& self.data_offset == payload_offset(self.view.data@, self.view.offset as int, self.child as nat)
    }

    /// The next child with its box; `None` after the last slot or at the
    /// first empty slot.
    pub fn next(&mut self) -> (r: Option<(ChildData, AabbBytes)>)
        requires
            old(self).wf(),
        ensures
            final(self).wf(),
            final(self).view == old(self).view,
            ({
                let d = old(self).view.data@;
                let o = old(self).view.offset as int;
                let c = old(self).child as int;
                if c >= 8 || node_type(d, o, c) == Some(ChildType::Empty) {
                    r is None && *final(self) == *old(self)
                } else {
                    &&& final(self).child == c + 1
                    &&& r matches Some((item, aabb)) && payload_decodes(
                        d,
                        o + payload_offset(d, o, c as nat),
                        node_type(d, o, c).unwrap(),
                        Some(item),
                    ) && aabb@ == node_aabb(d, o, c)
                }
            }),
    {
        let ghost d = self.view.data@;
        let ghost o = self.view.offset as int;
        if self.child >= 8 {
            return None;
        }
        let stype = self.view.get_type(self.child);
        if stype == ChildType::Empty {
            return None;
        }
        proof {
            lemma_payload_offset_mono(d, o, (self.child + 1) as nat, 8);
        }
        let item = self.view.get_data_offset(self.data_offset, stype).unwrap();
        let aabb = self.view.get_aabb(self.child);
        self.child = self.child + 1;
        self.data_offset = self.data_offset + stype.size();
        Some((item, aabb))
    }
}

/// The slot of the first empty child at or after slot `i` of the node at
/// `off` (8 when there is none): the children before it are the ones the
/// node lists.
pub open spec fn first_empty_from(data: Seq<u8>, off: int, i: nat) -> nat
    decreases 8 - i,
{
    if i >= 8 {
        8
    } else if node_type(data, off, i as int) == Some(ChildType::Empty) {
        i
    } else {
        first_empty_from(data, off, i + 1)
    }
}

/// `v` lists the children of the node at `off` in slot order, up to its
/// first empty slot: each payload as the node stores it, with its box.
pub open spec fn children_of(data: Seq<u8>, off: int, v: Seq<(ChildData, AabbBytes)>) -> bool {
    &&& v.len() == first_empty_from(data, off, 0)
    &&& forall|i: int|
        0 <= i < v.len() ==> payload_decodes(
            data,
            off + payload_offset(data, off, i as nat),
            node_type(data, off, i).unwrap(),
            Some(#[trigger] v[i].0),
        ) && v[i].1@ == node_aabb(data, off, i)
}

/// Past slots that are not empty, the first empty slot is the same.
proof fn lemma_first_empty_skip(data: Seq<u8>, off: int, c: nat)
    requires
        c <= 8,
        forall|i: int| 0 <= i < c ==> #[trigger] node_type(data, off, i) != Some(ChildType::Empty),
    ensures
        first_empty_from(data, off, 0) == first_empty_from(data, off, c),
    decreases c,
{
    if c > 0 {
        lemma_first_empty_skip(data, off, (c - 1) as nat);
        assert(node_type(data, off, c - 1) != Some(ChildType::Empty));
    }
}

impl<'a> ChildIter<'a> {
    /// Runs a fresh iterator to its end and collects what it yields.
    pub fn collect_children(self) -> (v: Vec<(ChildData, AabbBytes)>)
        requires
            self.wf(),
            self.child == 0,
        ensures
            children_of(self.view.data@, self.view.offset as int, v@),
    {
        let ghost d = self.view.data@;
        let ghost o = self.view.offset as int;
        let mut it = self;
        let mut v: Vec<(ChildData, AabbBytes)> = Vec::new();
        loop
            invariant
                it.wf(),
                it.view.data@ == d,
                it.view.offset as int == o,
                v@.len() == it.child,
                forall|i: int| 0 <= i < it.child ==> #[trigger] node_type(d, o, i) != Some(ChildType::Empty),
                forall|i: int|
                    0 <= i < v@.len() ==> payload_decodes(
                        d,
                        o + payload_offset(d, o, i as nat),
                        node_type(d, o, i).unwrap(),
                        Some(#[trigger] v@[i].0),
                    ) && v@[i].1@ == node_aabb(d, o, i),
            ensures
                children_of(d, o, v@),
            decreases 8 - it.child,
        {
            let c = it.child;
            match it.next() {
                None => {
                    proof {
                        lemma_first_empty_skip(d, o, c as nat);
                    }
                    break;
                },
                Some(x) => {
                    proof {
                        assert(node_type(d, o, c as int) != Some(ChildType::Empty));
                    }
                    v.push(x);
                },
            }
        }
        v
    }
}

/// Byte `i` of the little endian bytes `b0, .., b7` is what a shift by
/// `8 * i` and a mask of the low byte give.
pub proof fn lemma_le64_byte(b0: u8, b1: u8, b2: u8, b3: u8, b4: u8, b5: u8, b6: u8, b7: u8, i: u64)
    requires
        i < 8,
    ensures
        ((from_le(b0, b1, b2, b3, b4, b5, b6, b7) >> (i * 8)) & 0xFF) as u8 == seq![
            b0,
            b1,
            b2,
            b3,
            b4,
            b5,
            b6,
            b7,
        ][i as int],
{
    let x = from_le(b0, b1, b2, b3, b4, b5, b6, b7);
    if i == 0 {
        assert(((x >> 0u64) & 0xFF) as u8 == b0) by (bit_vector)
            requires x == from_le(b0, b1, b2, b3, b4, b5, b6, b7);
    } else if i == 1 {
        assert(((x >> 8u64) & 0xFF) as u8 == b1) by (bit_vector)
            requires x == from_le(b0, b1, b2, b3, b4, b5, b6, b7);
    } else if i == 2 {
        assert(((x >> 16u64) & 0xFF) as u8 == b2) by (bit_vector)
            requires x == from_le(b0, b1, b2, b3, b4, b5, b6, b7);
    } else if i == 3 {
        assert(((x >> 24u64) & 0xFF) as u8 == b3) by (bit_vector)
            requires x == from_le(b0, b1, b2, b3, b4, b5, b6, b7);
    } else if i == 4 {
        assert(((x >> 32u64) & 0xFF) as u8 == b4) by (bit_vector)
            requires x == from_le(b0, b1, b2, b3, b4, b5, b6, b7);
    } else if i == 5 {
        assert(((x >> 40u64) & 0xFF) as u8 == b5) by (bit_vector)
            requires x == from_le(b0, b1, b2, b3, b4, b5, b6, b7);
    } else if i == 6 {
        assert(((x >> 48u64) & 0xFF) as u8 == b6) by (bit_vector)
            requires x == from_le(b0, b1, b2, b3, b4, b5, b6, b7);
    } else {
        assert(((x >> 56u64) & 0xFF) as u8 == b7) by (bit_vector)
            requires x == from_le(b0, b1, b2, b3, b4, b5, b6, b7);
    }
}

/// Payload offsets grow with the slot index and stay within 264 + 48 per
/// slot.
pub proof fn lemma_payload_offset_mono(data: Seq<u8>, off: int, i: nat, j: nat)
    requires
        i <= j,
    ensures
        payload_offset(data, off, i) <= payload_offset(data, off, j),
        payload_offset(data, off, j) <= HEADER_BYTES + 48 * j,
    decreases j,
{
    if j > 0 {
        if i < j {
            lemma_payload_offset_mono(data, off, i, (j - 1) as nat);
        } else {
            lemma_payload_offset_mono(data, off, (j - 1) as nat, (j - 1) as nat);
        }
    }
}

/// The box bytes of the first `k` slots have `32 * k` bytes, and slot `j`'s
/// box sits at `32 * j`.
pub proof fn lemma_aabbs_upto(aabbs: Seq<AabbBytes>, k: nat)
    ensures
        aabbs_upto(aabbs, k).len() == 32 * k,
        forall|j: int|
            0 <= j < k ==> #[trigger] aabbs_upto(aabbs, k).subrange(32 * j, 32 * j + 32)
                == aabbs[j]@,
    decreases k,
{
    if k > 0 {
        lemma_aabbs_upto(aabbs, (k - 1) as nat);
        let prev = aabbs_upto(aabbs, (k - 1) as nat);
        let cur = aabbs_upto(aabbs, k);
        assert forall|j: int| 0 <= j < k implies #[trigger] cur.subrange(32 * j, 32 * j + 32)
            == aabbs[j]@ by {
            if j < k - 1 {
                assert(cur.subrange(32 * j, 32 * j + 32) =~= prev.subrange(32 * j, 32 * j + 32));
            } else {
                assert(cur.subrange(32 * j, 32 * j + 32) =~= aabbs[j]@);
            }
        }
    }
}

/// The payload of a present child has the size of its kind.
pub proof fn lemma_opt_bytes_len(d: Option<ChildData>)
    ensures
        opt_bytes(d).len() == match d {
            Some(d) => d.spec_type().spec_size(),
            None => 0,
        },
{
}

/// The payload bytes of the first `i` slots are a prefix of those of the
/// first `j` slots.
pub proof fn lemma_payload_upto_prefix(datas: Seq<Option<ChildData>>, i: nat, j: nat)
    requires
        i <= j,
    ensures
        payload_upto(datas, i).len() <= payload_upto(datas, j).len(),
        payload_upto(datas, j).subrange(0, payload_upto(datas, i).len() as int) == payload_upto(
            datas,
            i,
        ),
    decreases j,
{
    if i < j {
        lemma_payload_upto_prefix(datas, i, (j - 1) as nat);
        let a = payload_upto(datas, i);
        let b = payload_upto(datas, (j - 1) as nat);
        let c = payload_upto(datas, j);
        assert(c.subrange(0, a.len() as int) =~= b.subrange(0, a.len() as int));
    } else {
        assert(payload_upto(datas, j).subrange(0, payload_upto(datas, j).len() as int)
            =~= payload_upto(datas, j));
    }
}

/// Reading the integer at `at` gives `x` when the bytes there are those of
/// `x`.
pub proof fn lemma_read_le64_at(s: Seq<u8>, at: int, x: u64)
    requires
        0 <= at,
        at + 8 <= s.len(),
        s.subrange(at, at + 8) == le64(x),
    ensures
        read_le64(s, at) == x,
{
    lemma_le64_roundtrip(x);
    let l = le64(x);
    assert(s[at] == s.subrange(at, at + 8)[0]);
    assert(s[at + 1] == s.subrange(at, at + 8)[1]);
    assert(s[at + 2] == s.subrange(at, at + 8)[2]);
    assert(s[at + 3] == s.subrange(at, at + 8)[3]);
    assert(s[at + 4] == s.subrange(at, at + 8)[4]);
    assert(s[at + 5] == s.subrange(at, at + 8)[5]);
    assert(s[at + 6] == s.subrange(at, at + 8)[6]);
    assert(s[at + 7] == s.subrange(at, at + 8)[7]);
}

/// At most one payload is what a run of bytes holds for a given kind.
pub proof fn lemma_payload_decodes_unique(
    s: Seq<u8>,
    at: int,
    t: ChildType,
    r1: Option<ChildData>,
    r2: Option<ChildData>,
)
    requires
        payload_decodes(s, at, t, r1),
        payload_decodes(s, at, t, r2),
    ensures
        r1 == r2,
{
    if t == ChildType::HasLeaf {
        let l1 = r1.unwrap()->HasLeaf_0;
        let l2 = r2.unwrap()->HasLeaf_0;
        assert(l1.triangle =~= l2.triangle);
    }
}

/// The bytes of a payload are what they decode to.
pub proof fn lemma_payload_decodes_own_bytes(s: Seq<u8>, at: int, d: ChildData)
    requires
        0 <= at,
        at + d.spec_type().spec_size() <= s.len(),
        s.subrange(at, at + d.spec_type().spec_size()) == d.spec_bytes(),
    ensures
        payload_decodes(s, at, d.spec_type(), Some(d)),
{
    match d {
        ChildData::HasBlas(b) => {
            let x = b.blas_root_node_index as u64;
            lemma_le64_roundtrip(x);
            lemma_le64_roundtrip(b.entity);
            assert(s.subrange(at, at + 8) =~= s.subrange(at, at + 16).subrange(0, 8));
            assert(s.subrange(at + 8, at + 16) =~= s.subrange(at, at + 16).subrange(8, 16));
            assert(d.spec_bytes().subrange(0, 8) =~= le64(x));
            assert(d.spec_bytes().subrange(8, 16) =~= le64(b.entity));
            lemma_read_le64_at(s, at, x);
            lemma_read_le64_at(s, at + 8, b.entity);
        },
        ChildData::HasLeaf(l) => {},
        ChildData::HasNode(n) => {
            lemma_le64_roundtrip(n.ptr as u64);
            lemma_read_le64_at(s, at, n.ptr as u64);
        },
    }
}

/// In a node written by a well formed builder, the payload of slot `i`
/// starts right after the payloads of the slots before it.
pub proof fn lemma_built_payload_offset(b: NodeBuilder, data: Seq<u8>, ptr: int, i: nat)
    requires
        b.wf(),
        0 <= ptr,
        data.len() >= ptr + 8,
        data.subrange(ptr, ptr + 8) == b.child_mask@,
        i <= 8,
    ensures
        payload_offset(data, ptr, i) == HEADER_BYTES + payload_upto(b.child_data@, i).len(),
    decreases i,
{
    if i > 0 {
        lemma_built_payload_offset(b, data, ptr, (i - 1) as nat);
        let k = i - 1;
        assert(data[ptr + k] == data.subrange(ptr, ptr + 8)[k]);
        lemma_opt_bytes_len(b.child_data@[k]);
        if k < b.child_offset {
            let d = b.child_data@[k].unwrap();
            assert(b.child_mask@[k] == d.spec_type().spec_code());
        } else {
            assert(b.child_mask@[k] == 0);
        }
    }
}

/// A node that `NodeBuilder::build` writes reads back as what was pushed:
/// every slot holds a valid kind, slot `i < child_offset` holds the kind and
/// payload that were pushed into it, the remaining slots are empty, and every
/// slot's box is the one that was pushed.
pub proof fn lemma_build_then_read(b: NodeBuilder, old_data: Seq<u8>, new_data: Seq<u8>)
    requires
        b.wf(),
        old_data.len() % 8 == 0,
        new_data == old_data + b.spec_bytes(),
    ensures
        node_readable(new_data, old_data.len() as int),
        forall|i: int|
            0 <= i < b.child_offset ==> #[trigger] node_type(new_data, old_data.len() as int, i)
                == Some(b.child_data@[i].unwrap().spec_type()),
        forall|i: int|
            b.child_offset <= i < 8 ==> #[trigger] node_type(new_data, old_data.len() as int, i)
                == Some(ChildType::Empty),
        forall|i: int, r: Option<ChildData>|
            0 <= i < b.child_offset ==> (#[trigger] payload_decodes(
                new_data,
                old_data.len() + payload_offset(new_data, old_data.len() as int, i as nat) as int,
                b.child_data@[i].unwrap().spec_type(),
                r,
            ) <==> r == b.child_data@[i]),
        forall|i: int|
            0 <= i < 8 ==> #[trigger] node_aabb(new_data, old_data.len() as int, i)
                == b.child_aabbs@[i]@,
{
    let ptr = old_data.len() as int;
    let mask = b.child_mask@;
    let aabbs = aabbs_upto(b.child_aabbs@, 8);
    let payload = payload_upto(b.child_data@, 8);
    lemma_aabbs_upto(b.child_aabbs@, 8);
    assert(new_data.subrange(ptr, ptr + 8) =~= mask);
    assert(new_data.subrange(ptr + 8, ptr + 264) =~= aabbs);
    assert(new_data.subrange(ptr + 264, new_data.len() as int) =~= payload);
    lemma_built_payload_offset(b, new_data, ptr, 8);
    assert forall|i: int| 0 <= i < 8 implies #[trigger] node_type(new_data, ptr, i) is Some
        && (i < b.child_offset ==> node_type(new_data, ptr, i) == Some(
        b.child_data@[i].unwrap().spec_type(),
    )) && (b.child_offset <= i ==> node_type(new_data, ptr, i) == Some(ChildType::Empty)) by {
        assert(new_data[ptr + i] == mask[i]);
        if i < b.child_offset {
            let d = b.child_data@[i].unwrap();
            assert(mask[i] == d.spec_type().spec_code());
        } else {
            assert(mask[i] == 0);
        }
    }
    assert forall|i: int| 0 <= i < 8 implies #[trigger] node_aabb(new_data, ptr, i)
        == b.child_aabbs@[i]@ by {
        assert(aabbs.subrange(32 * i, 32 * i + 32) == b.child_aabbs@[i]@);
        assert(node_aabb(new_data, ptr, i) =~= aabbs.subrange(32 * i, 32 * i + 32));
    }
    assert forall|i: int, r: Option<ChildData>| 0 <= i < b.child_offset implies (
    #[trigger] payload_decodes(
        new_data,
        ptr + payload_offset(new_data, ptr, i as nat),
        b.child_data@[i].unwrap().spec_type(),
        r,
    ) <==> r == b.child_data@[i]) by {
        let d = b.child_data@[i].unwrap();
        let t = d.spec_type();
        lemma_built_payload_offset(b, new_data, ptr, i as nat);
        lemma_payload_upto_prefix(b.child_data@, i as nat, (i + 1) as nat);
        lemma_payload_upto_prefix(b.child_data@, (i + 1) as nat, 8);
        lemma_opt_bytes_len(b.child_data@[i]);
        let lo = payload_upto(b.child_data@, i as nat).len() as int;
        let hi = payload_upto(b.child_data@, (i + 1) as nat).len() as int;
        assert(payload_upto(b.child_data@, (i + 1) as nat) == payload_upto(b.child_data@, i as nat)
            + d.spec_bytes());
        assert(hi == lo + t.spec_size());
        let at = ptr + payload_offset(new_data, ptr, i as nat);
        assert(at == ptr + 264 + lo);
        assert(payload.subrange(0, hi) == payload_upto(b.child_data@, (i + 1) as nat));
        assert(new_data.subrange(at, at + t.spec_size()) =~= payload.subrange(0, hi).subrange(
            lo,
            hi,
        ));
        assert(payload_upto(b.child_data@, (i + 1) as nat).subrange(lo, hi) =~= d.spec_bytes());
        lemma_payload_decodes_own_bytes(new_data, at, d);
        if payload_decodes(new_data, at, t, r) {
            lemma_payload_decodes_unique(new_data, at, t, r, Some(d));
        }
    }
}

/// Building a node and then iterating its children yields exactly the
/// children that were pushed, in the order they were pushed, each with its
/// box, and then stops.
pub proof fn lemma_build_then_iterate(
    b: NodeBuilder,
    old_data: Seq<u8>,
    new_data: Seq<u8>,
    v: Seq<(ChildData, AabbBytes)>,
)
    requires
        b.wf(),
        old_data.len() % 8 == 0,
        new_data == old_data + b.spec_bytes(),
        children_of(new_data, old_data.len() as int, v),
    ensures
        v.len() == b.child_offset,
        forall|i: int|
            0 <= i < v.len() ==> Some(#[trigger] v[i].0) == b.child_data@[i] && v[i].1@
                == b.child_aabbs@[i]@,
{
    let ptr = old_data.len() as int;
    lemma_build_then_read(b, old_data, new_data);
    let k = b.child_offset;
    assert forall|i: int| 0 <= i < k implies #[trigger] node_type(new_data, ptr, i) != Some(
        ChildType::Empty,
    ) by {
        assert(node_type(new_data, ptr, i) == Some(b.child_data@[i].unwrap().spec_type()));
    }
    lemma_first_empty_skip(new_data, ptr, k as nat);
    if k < 8 {
        assert(node_type(new_data, ptr, k as int) == Some(ChildType::Empty));
    }
    assert forall|i: int| 0 <= i < v.len() implies Some(#[trigger] v[i].0) == b.child_data@[i]
        && v[i].1@ == b.child_aabbs@[i]@ by {
        assert(node_type(new_data, ptr, i) == Some(b.child_data@[i].unwrap().spec_type()));
        assert(payload_decodes(
            new_data,
            ptr + payload_offset(new_data, ptr, i as nat),
            b.child_data@[i].unwrap().spec_type(),
            Some(v[i].0),
        ));
    }
}

} // verus!
