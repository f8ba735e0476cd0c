//! Small pieces of the immediate-mode UI: element ids from source
//! locations, the font atlas layout, text directions, window resize edges
//! and what is being dragged.
use vstd::prelude::*;
use vstd::string::*;

verus! {

/// The width and height in pixels of one character cell of the font atlas.
pub const ATLAS_CELL_WIDTH: u32 = 14;

pub const ATLAS_CELL_HEIGHT: u32 = 30;

/// One step of the location hash: mix `x` into `h`.
pub open spec fn fnv_mix(h: u64, x: u64) -> u64 {
    (h ^ x).wrapping_mul(0x100000003b4c61)
}

/// The location hash of the bytes of a file name.
pub open spec fn fnv_bytes(bytes: Seq<u8>) -> u64
    decreases bytes.len(),
{
    if bytes.len() == 0 {
        0xcbf29ce484222325
    } else {
        fnv_mix(fnv_bytes(bytes.drop_last()), bytes.last() as u64)
    }
}

/// The id of a UI element from the source location that creates it: the
/// file name's bytes, then the line, then the column, mixed in turn.
pub fn hash_location(file: &str, line: u32, col: u32) -> (h: u64)
    ensures
        h == fnv_mix(fnv_mix(fnv_bytes(file.spec_bytes()), line as u64), col as u64),
{
    let mut hash: u64 = 0xcbf29ce484222325;
    let bytes = file.as_bytes();
    let mut i: usize = 0;
    while i < bytes.len()
        invariant
            i <= bytes@.len(),
            bytes@ == file.spec_bytes(),
            hash == fnv_bytes(bytes@.subrange(0, i as int)),
        decreases bytes@.len() - i,
    {
        proof {
            let s = bytes@.subrange(0, i + 1);
            assert(s.drop_last() =~= bytes@.subrange(0, i as int));
            assert(s.last() == bytes@[i as int]);
        }
        hash = hash ^ (bytes[i] as u64);
        hash = hash.wrapping_mul(0x100000003b4c61);
        i = i + 1;
    }
    proof {
        assert(bytes@.subrange(0, bytes@.len() as int) =~= bytes@);
    }
    hash = hash ^ (line as u64);
    hash = hash.wrapping_mul(0x100000003b4c61);
    hash = hash ^ (col as u64);
    hash = hash.wrapping_mul(0x100000003b4c61);
    hash
}

/// The pixel position of a character's cell in the font atlas: the atlas
/// is 256 cells wide, and code point `c` sits in column `c % 256`, row
/// `c / 256`; characters above `u16::MAX` map to the first cell.
pub fn char_to_atlas_pos(c: char) -> (p: (u32, u32))
    ensures
        (c as u32) > 0xffff ==> p == (0u32, 0u32),
        (c as u32) <= 0xffff ==> p.0 == ((c as u32) % 256) * ATLAS_CELL_WIDTH && p.1 == ((c as u32)
            / 256) * ATLAS_CELL_HEIGHT,
{
    let idx = c as u32;
    if idx > 0xffff {
        return (0, 0);
    }
    let idx16 = idx as u16;
    let lower = idx16 & 0xff;
    let higher = (idx16 >> 8) & 0xff;
    assert(lower == idx % 256 && higher == idx / 256) by (bit_vector)
        requires
            idx <= 0xffff,
            idx16 == idx as u16,
            lower == idx16 & 0xff,
            higher == (idx16 >> 8) & 0xff,
    ;
    ((lower as u32) * ATLAS_CELL_WIDTH, (higher as u32) * ATLAS_CELL_HEIGHT)
}

/// The direction in which text runs.
#[derive(Copy, Clone, Debug, PartialEq, Eq, Structural)]
pub enum TextDirection {
    Right,
    Left,
    Up,
    Down,
}

impl Default for TextDirection {
    fn default() -> (d: Self)
        ensures
            d == TextDirection::Right,
    {
        TextDirection::Right
    }
}

impl TextDirection {
    /// The unit step from one character to the next, in screen
    /// coordinates (y grows downwards).
    pub fn advance(&self) -> (v: (i8, i8))
        ensures
            v == match *self {
                TextDirection::Right => (1i8, 0i8),
                TextDirection::Left => (-1i8, 0i8),
                TextDirection::Down => (0i8, 1i8),
                TextDirection::Up => (0i8, -1i8),
            },
    {
        match self {
            TextDirection::Right => (1, 0),
            TextDirection::Left => (-1, 0),
            TextDirection::Down => (0, 1),
            TextDirection::Up => (0, -1),
        }
    }

    /// The unit step from a line to the next one: the advance turned a
    /// quarter clockwise.
    pub fn ascent(&self) -> (v: (i8, i8))
        ensures
            v == match *self {
                TextDirection::Right => (0i8, 1i8),
                TextDirection::Left => (0i8, -1i8),
                TextDirection::Down => (-1i8, 0i8),
                TextDirection::Up => (1i8, 0i8),
            },
            v.0 == -self.advance_spec().1 && v.1 == self.advance_spec().0,
    {
        match self {
            TextDirection::Right => (0, 1),
            TextDirection::Left => (0, -1),
            TextDirection::Down => (-1, 0),
            TextDirection::Up => (1, 0),
        }
    }

    pub open spec fn advance_spec(&self) -> (i8, i8) {
        match *self {
            TextDirection::Right => (1i8, 0i8),
            TextDirection::Left => (-1i8, 0i8),
            TextDirection::Down => (0i8, 1i8),
            TextDirection::Up => (0i8, -1i8),
        }
    }
}

/// The edges of a window that the pointer is over, for resizing.
#[derive(Copy, Clone, Debug)]
pub struct ResizeEdges {
    pub top: bool,
    pub bottom: bool,
    pub left: bool,
    pub right: bool,
}

impl Default for ResizeEdges {
    fn default() -> (e: Self)
        ensures
            !e.top && !e.bottom && !e.left && !e.right,
    {
        ResizeEdges { top: false, bottom: false, left: false, right: false }
    }
}

impl ResizeEdges {
    /// Whether the pointer is over any edge.
    pub fn any(&self) -> (r: bool)
        ensures
            r == (self.top || self.bottom || self.left || self.right),
    {
        self.top || self.bottom || self.left || self.right
    }
}

/// What the pointer drags: a tab, a window, a scroll handle, an element
/// or a drag-and-drop source (by their nonzero ids).
#[derive(Copy, Clone, Debug, PartialEq, Eq, Structural)]
pub enum Draggable {
    ActiveTab,
    Window,
    WindowScrollHandle,
    TabScrollHandle,
    Element(u64),
    DragAndDrop(u64),
    ScrollHandle,
}

} // verus!
