//! Editing a focused text input by key presses: cursor movement, word
//! jumps, selection, deletion and typing.
use crate::text_cursor::{bytes_of, chars_from, is_next_boundary, is_prev_boundary, remove_char_at, TextCursor};
use vstd::prelude::*;
use vstd::string::*;
use vstd::utf8::*;

verus! {

broadcast use {group_utf8_lib, vstd::string::group_string_axioms};

/// The keys that a text input tells apart.
#[derive(Copy, Clone, Debug, PartialEq, Eq, Structural)]
pub enum EditKey {
    ArrowLeft,
    ArrowRight,
    Home,
    End,
    Backspace,
    Delete,
    KeyA,
    Enter,
    Escape,
    Tab,
    Other,
}

/// What the input does after a key: go on with the next key, give up the
/// focus (Enter, Escape), or hand the focus to the next input (Tab).
#[derive(Copy, Clone, Debug, PartialEq, Eq, Structural)]
pub enum KeyOutcome {
    Continue,
    Unfocus,
    FocusNext,
}

/// One keyboard event: the key, the text it types, if any, and whether it
/// is a press or a repeat (releases do nothing).
#[derive(Debug)]
pub struct KeyPress {
    pub key: EditKey,
    pub text: Option<String>,
    pub pressed: bool,
}

/// The cursor and the selection of a focused text input; the selection
/// runs between `sel_start` and `sel_end`, in either order.
#[derive(Copy, Clone, Debug)]
pub struct TextEdit {
    pub cursor: TextCursor,
    pub sel_start: usize,
    pub sel_end: usize,
}

/// The characters at which a word jump stops.
pub open spec fn is_word_delimiter(c: char) -> bool {
    c == ' ' || c == '.' || c == ',' || c == ':' || c == '(' || c == ')'
}

fn word_delimiter(c: char) -> (r: bool)
    ensures
        r == is_word_delimiter(c),
{
    c == ' ' || c == '.' || c == ',' || c == ':' || c == '(' || c == ')'
}

/// The character that starts at byte `i`.
pub open spec fn char_at(b: Seq<u8>, i: int) -> char {
    chars_from(b, i)[0]
}

/// The character boundary before `p` (`0` at the start).
pub open spec fn prev_boundary(b: Seq<u8>, p: int) -> int {
    if p <= 0 {
        0
    } else {
        choose|q: int| is_prev_boundary(b, p, q)
    }
}

/// The character boundary after `p` (`p` itself at the end).
pub open spec fn next_boundary(b: Seq<u8>, p: int) -> int {
    if p >= b.len() {
        p
    } else {
        choose|q: int| is_next_boundary(b, p, q)
    }
}

/// Where a jump to the left from `q` stops: moving back one character at a
/// time, it stops behind a delimiter or at the start.
pub open spec fn word_start(b: Seq<u8>, q: int) -> int
    decreases q,
{
    if q <= 0 {
        0
    } else if is_word_delimiter(char_at(b, q - 1)) {
        q
    } else {
        word_start(b, q - 1)
    }
}

/// A jump to the left from `q` reads, one byte before each position it
/// reaches, the character that starts there; that byte must start a
/// character (reading a character from the middle of one panics).
pub open spec fn word_start_safe(b: Seq<u8>, q: int) -> bool
    decreases q,
{
    q <= 0 || (is_char_boundary(b, q - 1) && (is_word_delimiter(char_at(b, q - 1))
        || word_start_safe(b, q - 1)))
}

/// Where a jump to the right from `q` stops: moving forward one character
/// at a time, it stops before a delimiter or at the end.
pub open spec fn word_end(b: Seq<u8>, q: int) -> int
    decreases b.len() - q,
{
    if q < 0 || q >= b.len() || is_word_delimiter(char_at(b, q)) {
        q
    } else {
        let r = next_boundary(b, q);
        if q < r <= b.len() {
            word_end(b, r)
        } else {
            q
        }
    }
}

/// `b` without the bytes `lo..hi`.
pub open spec fn cut(b: Seq<u8>, lo: int, hi: int) -> Seq<u8> {
    b.subrange(0, lo) + b.subrange(hi, b.len() as int)
}

/// `b` with `ins` put in at byte `at`.
pub open spec fn splice(b: Seq<u8>, at: int, ins: Seq<u8>) -> Seq<u8> {
    b.subrange(0, at) + ins + b.subrange(at, b.len() as int)
}

/// The smaller and the larger end of the selection.
pub open spec fn sel_lo(s: int, e: int) -> int {
    if s <= e {
        s
    } else {
        e
    }
}

pub open spec fn sel_hi(s: int, e: int) -> int {
    if s <= e {
        e
    } else {
        s
    }
}

/// Where the cursor goes on a movement key.
pub open spec fn move_target(b: Seq<u8>, p: int, s: int, e: int, key: EditKey, shift: bool, ctrl: bool) -> int {
    let has = s != e;
    match key {
        EditKey::ArrowLeft => if has && !shift {
            sel_lo(s, e)
        } else if ctrl {
            word_start(b, prev_boundary(b, p))
        } else {
            prev_boundary(b, p)
        },
        EditKey::ArrowRight => if has && !shift {
            sel_hi(s, e)
        } else if ctrl {
            word_end(b, next_boundary(b, p))
        } else {
            next_boundary(b, p)
        },
        EditKey::Home => 0,
        _ => b.len() as int,
    }
}

/// The effect of a key that types `ins` (or nothing): the selection is
/// replaced, the text goes in at the cursor, and without shift the
/// selection closes on the cursor.
pub open spec fn typed_effect(b: Seq<u8>, p: int, s: int, e: int, ins: Option<Seq<u8>>, shift: bool) -> (
    Seq<u8>,
    int,
    int,
    int,
    KeyOutcome,
) {
    match ins {
        Some(t) => {
            let lo = sel_lo(s, e);
            let hi = sel_hi(s, e);
            let b1 = if s != e {
                cut(b, lo, hi)
            } else {
                b
            };
            let p1 = if s != e {
                lo
            } else {
                p
            };
            let s1 = if s != e {
                lo
            } else {
                s
            };
            let e1 = if s != e {
                lo
            } else {
                e
            };
            let p2 = p1 + t.len();
            (
                splice(b1, p1, t),
                p2,
                if shift {
                    s1
                } else {
                    p2
                },
                if shift {
                    e1
                } else {
                    p2
                },
                KeyOutcome::Continue,
            )
        },
        None => (
            b,
            p,
            if shift {
                s
            } else {
                p
            },
            if shift {
                e
            } else {
                p
            },
            KeyOutcome::Continue,
        ),
    }
}

/// The text bytes, cursor, selection start and end, and outcome after one
/// key event on text bytes `b` with cursor `p` and selection `s..e`.
pub open spec fn key_effect(
    b: Seq<u8>,
    p: int,
    s: int,
    e: int,
    key: EditKey,
    ins: Option<Seq<u8>>,
    pressed: bool,
    shift: bool,
    ctrl: bool,
) -> (Seq<u8>, int, int, int, KeyOutcome) {
    let has = s != e;
    let lo = sel_lo(s, e);
    let hi = sel_hi(s, e);
    if !pressed {
        (b, p, s, e, KeyOutcome::Continue)
    } else {
        match key {
            EditKey::ArrowLeft | EditKey::ArrowRight | EditKey::Home | EditKey::End => {
                let t = move_target(b, p, s, e, key, shift, ctrl);
                (
                    b,
                    t,
                    if shift {
                        s
                    } else {
                        t
                    },
                    t,
                    KeyOutcome::Continue,
                )
            },
            EditKey::Backspace => {
                if has {
                    (cut(b, lo, hi), lo, lo, lo, KeyOutcome::Continue)
                } else if p <= 0 {
                    (b, p, p, p, KeyOutcome::Continue)
                } else {
                    let q = prev_boundary(b, p);
                    let r = if ctrl {
                        word_start(b, q)
                    } else {
                        q
                    };
                    (cut(b, r, next_boundary(b, q)), r, r, r, KeyOutcome::Continue)
                }
            },
            EditKey::Delete => {
                if has {
                    (cut(b, lo, hi), lo, lo, lo, KeyOutcome::Continue)
                } else if p >= b.len() {
                    (b, p, p, p, KeyOutcome::Continue)
                } else {
                    let r = if ctrl {
                        word_end(b, next_boundary(b, p))
                    } else {
                        next_boundary(b, p)
                    };
                    (cut(b, p, r), p, p, p, KeyOutcome::Continue)
                }
            },
            EditKey::KeyA => if ctrl {
                (b, b.len() as int, 0, b.len() as int, KeyOutcome::Continue)
            } else {
                typed_effect(b, p, s, e, ins, shift)
            },
            EditKey::Enter | EditKey::Escape => (b, p, s, e, KeyOutcome::Unfocus),
            EditKey::Tab => (b, p, s, e, KeyOutcome::FocusNext),
            EditKey::Other => typed_effect(b, p, s, e, ins, shift),
        }
    }
}

/// The key event can be handled without a panic: the text is only read,
/// cut or extended at character boundaries (the cursor, for deleting a
/// character or typing; both ends of a selection that is deleted or typed
/// over), a word jump to the left (with ctrl) reads whole characters, and
/// typed text fits.
pub open spec fn key_ok(
    b: Seq<u8>,
    p: int,
    s: int,
    e: int,
    key: EditKey,
    ins: Option<Seq<u8>>,
    pressed: bool,
    shift: bool,
    ctrl: bool,
) -> bool {
    let has = s != e;
    let sel_ok = is_char_boundary(b, s) && is_char_boundary(b, e);
    let typed_ok = match ins {
        Some(t) => (if has {
            sel_ok
        } else {
            is_char_boundary(b, p)
        }) && b.len() + t.len() <= usize::MAX,
        None => true,
    };
    !pressed || match key {
        EditKey::ArrowLeft => (has && !shift) || !ctrl || word_start_safe(b, prev_boundary(b, p)),
        EditKey::ArrowRight => (has && !shift) || is_char_boundary(b, p),
        EditKey::Backspace => if has {
            sel_ok
        } else {
            p <= b.len() && (!ctrl || word_start_safe(b, prev_boundary(b, p)))
        },
        EditKey::Delete => if has {
            sel_ok
        } else {
            p >= b.len() || is_char_boundary(b, p)
        },
        EditKey::KeyA => ctrl || typed_ok,
        EditKey::Other => typed_ok,
        _ => true,
    }
}

/// Cursor and selection ends lie on character boundaries, and an empty
/// selection never lies after the cursor: every key keeps this.
pub open spec fn settled(b: Seq<u8>, p: int, s: int, e: int) -> bool {
    &&& is_char_boundary(b, p)
    &&& is_char_boundary(b, s)
    &&& is_char_boundary(b, e)
    &&& s == e ==> s <= p
}

proof fn lemma_prev_unique(b: Seq<u8>, p: int, q: int)
    requires
        p > 0,
        is_prev_boundary(b, p, q),
    ensures
        prev_boundary(b, p) == q,
{
    let r = choose|r: int| is_prev_boundary(b, p, r);
    assert(is_prev_boundary(b, p, r));
    if r < q {
        assert(!is_char_boundary(b, q));
    }
    if q < r {
        assert(!is_char_boundary(b, r));
    }
}

proof fn lemma_next_unique(b: Seq<u8>, p: int, q: int)
    requires
        p < b.len(),
        is_next_boundary(b, p, q),
    ensures
        next_boundary(b, p) == q,
{
    let r = choose|r: int| is_next_boundary(b, p, r);
    assert(is_next_boundary(b, p, r));
    if r < q {
        assert(!is_char_boundary(b, r));
    }
    if q < r {
        assert(!is_char_boundary(b, q));
    }
}

proof fn lemma_boundary_in_range(b: Seq<u8>, i: int)
    requires
        valid_utf8(b),
        is_char_boundary(b, i),
    ensures
        0 <= i <= b.len(),
{
}

/// Splitting valid UTF-8 into two valid parts keeps the character
/// boundaries of each part.
proof fn lemma_boundary_concat(x: Seq<u8>, y: Seq<u8>)
    requires
        valid_utf8(x),
        valid_utf8(y),
    ensures
        forall|i: int|
            0 <= i <= x.len() ==> (#[trigger] is_char_boundary(x + y, i) <==> is_char_boundary(x, i)),
        forall|i: int|
            0 <= i <= y.len() ==> (is_char_boundary(x + y, x.len() + i) <==> #[trigger] is_char_boundary(
                y,
                i,
            )),
{
    let xy = x + y;
    assert(valid_utf8(xy));
    assert(is_char_boundary(x, x.len() as int));
    assert(is_char_boundary(y, 0));
    assert(is_char_boundary(xy, xy.len() as int));
    assert(is_char_boundary(xy, x.len() as int)) by {
        if y.len() > 0 {
            is_char_boundary_iff_not_is_continuation_byte(xy, x.len() as int);
            is_char_boundary_iff_not_is_continuation_byte(y, 0);
            assert(xy[x.len() as int] == y[0]);
        } else {
            assert(xy.len() == x.len());
        }
    }
    assert forall|i: int| 0 <= i <= x.len() implies (#[trigger] is_char_boundary(xy, i)
        <==> is_char_boundary(x, i)) by {
        if i < x.len() {
            is_char_boundary_iff_not_is_continuation_byte(xy, i);
            is_char_boundary_iff_not_is_continuation_byte(x, i);
            assert(xy[i] == x[i]);
        }
    }
    assert forall|i: int| 0 <= i <= y.len() implies (is_char_boundary(xy, x.len() + i)
        <==> #[trigger] is_char_boundary(y, i)) by {
        if 0 < i < y.len() {
            is_char_boundary_iff_not_is_continuation_byte(xy, x.len() + i);
            is_char_boundary_iff_not_is_continuation_byte(y, i);
            assert(xy[x.len() + i] == y[i]);
        } else if i == y.len() {
            assert(x.len() + i == xy.len());
        }
    }
}

/// Removing `lo..hi` from valid UTF-8 at boundaries leaves `lo` a boundary,
/// and the boundaries before `lo` as they were.
proof fn lemma_cut_boundaries(b: Seq<u8>, lo: int, hi: int)
    requires
        valid_utf8(b),
        lo <= hi,
        is_char_boundary(b, lo),
        is_char_boundary(b, hi),
    ensures
        valid_utf8(cut(b, lo, hi)),
        is_char_boundary(cut(b, lo, hi), lo),
        forall|i: int| 0 <= i <= lo && #[trigger] is_char_boundary(b, i) ==> is_char_boundary(cut(b, lo, hi), i),
{
    let x = b.subrange(0, lo);
    let y = b.subrange(hi, b.len() as int);
    let z = b.subrange(lo, b.len() as int);
    assert(valid_utf8(x));
    assert(valid_utf8(y));
    assert(valid_utf8(z));
    lemma_boundary_concat(x, y);
    lemma_boundary_concat(x, z);
    assert(x + z =~= b);
    assert(x.len() == lo);
    assert(is_char_boundary(x, lo)) by {
        assert(x.len() == lo);
    }
    assert forall|i: int| 0 <= i <= lo && #[trigger] is_char_boundary(b, i) implies is_char_boundary(cut(b, lo, hi), i) by {
        assert(is_char_boundary(x + z, i));
        assert(is_char_boundary(x, i));
        assert(is_char_boundary(x + y, i));
    }
}

/// Putting valid UTF-8 `t` in at boundary `at` keeps the boundaries up to
/// `at` and makes `at + t.len()` a boundary.
proof fn lemma_splice_boundaries(b: Seq<u8>, at: int, t: Seq<u8>)
    requires
        valid_utf8(b),
        valid_utf8(t),
        is_char_boundary(b, at),
    ensures
        is_char_boundary(splice(b, at, t), at + t.len()),
        forall|i: int| 0 <= i <= at && #[trigger] is_char_boundary(b, i) ==> is_char_boundary(splice(b, at, t), i),
{
    let x = b.subrange(0, at);
    let z = b.subrange(at, b.len() as int);
    lemma_boundary_in_range(b, at);
    assert(valid_utf8(x));
    assert(valid_utf8(z));
    assert(x + z =~= b);
    lemma_boundary_concat(x, z);
    lemma_boundary_concat(x, t);
    assert(valid_utf8(x + t));
    lemma_boundary_concat(x + t, z);
    assert(splice(b, at, t) =~= (x + t) + z);
    assert(is_char_boundary(t, t.len() as int));
    assert(is_char_boundary(x + t, (x.len() + t.len()) as int));
    assert(is_char_boundary((x + t) + z, (x + t).len() as int));
    assert forall|i: int| 0 <= i <= at && #[trigger] is_char_boundary(b, i) implies is_char_boundary(splice(b, at, t), i) by {
        assert(is_char_boundary(x + z, i));
        assert(is_char_boundary(x, i));
        assert(is_char_boundary(x + t, i));
        assert(is_char_boundary((x + t) + z, i));
    }
}

/// The jump to the left from a character boundary `q`.
fn word_start_from(text: &str, q: TextCursor) -> (r: TextCursor)
    requires
        is_char_boundary(text.spec_bytes(), q.byte_pos as int),
        word_start_safe(text.spec_bytes(), q.byte_pos as int),
    ensures
        r.byte_pos == word_start(text.spec_bytes(), q.byte_pos as int),
        r.byte_pos <= q.byte_pos,
        is_char_boundary(text.spec_bytes(), r.byte_pos as int),
{
    let ghost b = text.spec_bytes();
    proof {
        lemma_boundary_in_range(b, q.byte_pos as int);
    }
    let mut c = q;
    while c.byte_pos != 0
        invariant
            b == text.spec_bytes(),
            c.byte_pos <= q.byte_pos,
            is_char_boundary(b, c.byte_pos as int),
            c.byte_pos <= b.len(),
            word_start_safe(b, c.byte_pos as int),
            word_start(b, c.byte_pos as int) == word_start(b, q.byte_pos as int),
        ensures
            word_start(b, c.byte_pos as int) == c.byte_pos,
        decreases c.byte_pos,
    {
        let ch = c.ch_before(text);
        match ch {
            Some(x) => {
                if word_delimiter(x) {
                    break ;
                }
            },
            None => {
                break ;
            },
        }
        let ghost before = c.byte_pos;
        c.move_left(text);
        proof {
            if (c.byte_pos as int) < before - 1 {
                assert(!is_char_boundary(b, before - 1));
            }
        }
    }
    c
}

/// The jump to the right from a character boundary `q`.
fn word_end_from(text: &str, q: TextCursor) -> (r: TextCursor)
    requires
        is_char_boundary(text.spec_bytes(), q.byte_pos as int),
    ensures
        r.byte_pos == word_end(text.spec_bytes(), q.byte_pos as int),
        r.byte_pos >= q.byte_pos,
        is_char_boundary(text.spec_bytes(), r.byte_pos as int),
{
    let ghost b = text.spec_bytes();
    proof {
        lemma_boundary_in_range(b, q.byte_pos as int);
    }
    let len = text.as_bytes().len();
    let mut c = q;
    while c.byte_pos < len
        invariant
            b == text.spec_bytes(),
            c.byte_pos >= q.byte_pos,
            len == b.len(),
            is_char_boundary(b, c.byte_pos as int),
            c.byte_pos <= len,
            word_end(b, c.byte_pos as int) == word_end(b, q.byte_pos as int),
        ensures
            word_end(b, c.byte_pos as int) == c.byte_pos,
        decreases len - c.byte_pos,
    {
        let ch = c.ch(text);
        match ch {
            Some(x) => {
                if word_delimiter(x) {
                    break ;
                }
            },
            None => {
                break ;
            },
        }
        let ghost before = c.byte_pos as int;
        c.move_right(text);
        proof {
            lemma_next_unique(b, before, c.byte_pos as int);
            lemma_boundary_in_range(b, c.byte_pos as int);
        }
    }
    c
}

/// `String::drain(start..end)`, with the drained characters dropped:
/// removes the bytes `start..end`, which must lie on character boundaries
/// in order (std panics otherwise).
#[verifier::external_body]
fn string_drain(text: &mut String, start: usize, end: usize)
    requires
        start <= end,
        is_char_boundary(bytes_of(old(text)@), start as int),
        is_char_boundary(bytes_of(old(text)@), end as int),
    ensures
        bytes_of(final(text)@) == cut(bytes_of(old(text)@), start as int, end as int),
{
    text.drain(start..end);
}

impl TextEdit {
    /// The state of an input that has just gained the focus on `text_len`
    /// bytes: the cursor at the end and everything selected.
    pub fn focus(text_len: usize) -> (r: Self)
        ensures
            r.cursor.byte_pos == text_len,
            r.sel_start == 0,
            r.sel_end == text_len,
    {
        TextEdit { cursor: TextCursor { byte_pos: text_len }, sel_start: 0, sel_end: text_len }
    }

    /// A click on the character that starts at byte `i`: the cursor goes
    /// there and the selection ends there; without shift it also starts
    /// there.
    pub fn click_at(&mut self, i: usize, shift: bool)
        ensures
            final(self).cursor.byte_pos == i,
            final(self).sel_end == i,
            final(self).sel_start == if shift {
                old(self).sel_start
            } else {
                i
            },
    {
        self.cursor.byte_pos = i;
        if shift {
            self.sel_end = i;
        } else {
            self.sel_start = i;
            self.sel_end = i;
        }
    }

    /// Pulls cursor and selection back into a text of `text_len` bytes.
    pub fn clamp(&mut self, text_len: usize)
        ensures
            final(self).cursor.byte_pos == if old(self).cursor.byte_pos <= text_len {
                old(self).cursor.byte_pos
            } else {
                text_len
            },
            final(self).sel_start == if old(self).sel_start <= text_len {
                old(self).sel_start
            } else {
                text_len
            },
            final(self).sel_end == if old(self).sel_end <= text_len {
                old(self).sel_end
            } else {
                text_len
            },
    {
        if self.cursor.byte_pos > text_len {
            self.cursor.byte_pos = text_len;
        }
        if self.sel_end > text_len {
            self.sel_end = text_len;
        }
        if self.sel_start > text_len {
            self.sel_start = text_len;
        }
    }
}

impl TextEdit {
    /// A movement key: arrows (with ctrl by words), Home and End.
    fn move_key(&mut self, text: &String, key: EditKey, shift: bool, ctrl: bool)
        requires
            key == EditKey::ArrowLeft || key == EditKey::ArrowRight || key == EditKey::Home || key
                == EditKey::End,
            key_ok(
                bytes_of(text@),
                old(self).cursor.byte_pos as int,
                old(self).sel_start as int,
                old(self).sel_end as int,
                key,
                None,
                true,
                shift,
                ctrl,
            ),
        ensures
            ({
                let r = key_effect(
                    bytes_of(text@),
                    old(self).cursor.byte_pos as int,
                    old(self).sel_start as int,
                    old(self).sel_end as int,
                    key,
                    None,
                    true,
                    shift,
                    ctrl,
                );
                &&& final(self).cursor.byte_pos == r.1
                &&& final(self).sel_start == r.2
                &&& final(self).sel_end == r.3
            }),
            is_char_boundary(bytes_of(text@), old(self).sel_start as int) && is_char_boundary(
                bytes_of(text@),
                old(self).sel_end as int,
            ) ==> is_char_boundary(bytes_of(text@), final(self).cursor.byte_pos as int),
    {
        let ghost b = bytes_of(text@);
        let p = self.cursor.byte_pos;
        let s = self.sel_start;
        let e = self.sel_end;
        let has = s != e;
        let lo = if s <= e {
            s
        } else {
            e
        };
        let hi = if s <= e {
            e
        } else {
            s
        };
        let t = text.as_str();
        assert(t.spec_bytes() == b);
        proof {
            assert(is_char_boundary(b, 0));
            assert(is_char_boundary(b, b.len() as int));
        }
        match key {
            EditKey::ArrowLeft => {
                if has && !shift {
                    self.cursor.byte_pos = lo;
                } else {
                    self.cursor.move_left(t);
                    proof {
                        if p > 0 {
                            lemma_prev_unique(b, p as int, self.cursor.byte_pos as int);
                        }
                    }
                    if ctrl {
                        self.cursor = word_start_from(t, self.cursor);
                    }
                }
            },
            EditKey::ArrowRight => {
                if has && !shift {
                    self.cursor.byte_pos = hi;
                } else {
                    self.cursor.move_right(t);
                    proof {
                        if (p as int) < b.len() {
                            lemma_next_unique(b, p as int, self.cursor.byte_pos as int);
                        }
                    }
                    if ctrl {
                        self.cursor = word_end_from(t, self.cursor);
                    }
                }
            },
            EditKey::Home => {
                self.cursor.byte_pos = 0;
            },
            _ => {
                self.cursor.byte_pos = t.as_bytes().len();
            },
        }
        if !shift {
            self.sel_start = self.cursor.byte_pos;
        }
        self.sel_end = self.cursor.byte_pos;
    }
}

impl TextEdit {
    /// Backspace and Delete: remove the selection, or the character (with
    /// ctrl the word) before or after the cursor.
    fn delete_key(&mut self, text: &mut String, backwards: bool, ctrl: bool)
        requires
            key_ok(
                bytes_of(old(text)@),
                old(self).cursor.byte_pos as int,
                old(self).sel_start as int,
                old(self).sel_end as int,
                if backwards {
                    EditKey::Backspace
                } else {
                    EditKey::Delete
                },
                None,
                true,
                false,
                ctrl,
            ),
        ensures
            ({
                let r = key_effect(
                    bytes_of(old(text)@),
                    old(self).cursor.byte_pos as int,
                    old(self).sel_start as int,
                    old(self).sel_end as int,
                    if backwards {
                        EditKey::Backspace
                    } else {
                        EditKey::Delete
                    },
                    None,
                    true,
                    false,
                    ctrl,
                );
                &&& bytes_of(final(text)@) == r.0
                &&& final(self).cursor.byte_pos == r.1
                &&& final(self).sel_start == r.2
                &&& final(self).sel_end == r.3
            }),
            settled(
                bytes_of(old(text)@),
                old(self).cursor.byte_pos as int,
                old(self).sel_start as int,
                old(self).sel_end as int,
            ) ==> settled(
                bytes_of(final(text)@),
                final(self).cursor.byte_pos as int,
                final(self).sel_start as int,
                final(self).sel_end as int,
            ),
    {
        let ghost b = bytes_of(text@);
        let p = self.cursor.byte_pos;
        let s = self.sel_start;
        let e = self.sel_end;
        let lo = if s <= e {
            s
        } else {
            e
        };
        let hi = if s <= e {
            e
        } else {
            s
        };
        if s != e {
            string_drain(text, lo, hi);
            proof {
                lemma_cut_boundaries(b, lo as int, hi as int);
            }
            self.cursor.byte_pos = lo;
        } else if backwards {
            if p > 0 {
                let mut q = self.cursor;
                q.move_left(text.as_str());
                proof {
                    lemma_prev_unique(b, p as int, q.byte_pos as int);
                    lemma_boundary_in_range(b, q.byte_pos as int);
                }
                let mut end = q;
                end.move_right(text.as_str());
                proof {
                    lemma_next_unique(b, q.byte_pos as int, end.byte_pos as int);
                    if is_char_boundary(b, p as int) {
                        assert(is_next_boundary(b, q.byte_pos as int, p as int));
                        lemma_next_unique(b, q.byte_pos as int, p as int);
                    }
                }
                let mut c = q;
                if ctrl {
                    c = word_start_from(text.as_str(), q);
                }
                string_drain(text, c.byte_pos, end.byte_pos);
                proof {
                    lemma_cut_boundaries(b, c.byte_pos as int, end.byte_pos as int);
                }
                self.cursor = c;
            }
        } else if p < text.as_str().as_bytes().len() {
            let mut c = self.cursor;
            c.move_right(text.as_str());
            proof {
                lemma_next_unique(b, p as int, c.byte_pos as int);
            }
            if ctrl {
                c = word_end_from(text.as_str(), c);
            }
            string_drain(text, p, c.byte_pos);
            proof {
                lemma_cut_boundaries(b, p as int, c.byte_pos as int);
            }
        }
        self.sel_start = self.cursor.byte_pos;
        self.sel_end = self.cursor.byte_pos;
    }

    /// A key that types its text, replacing the selection; a key with no
    /// text only closes the selection on the cursor (without shift).
    fn typed_key(&mut self, text: &mut String, ins: &Option<String>, shift: bool)
        requires
            key_ok(
                bytes_of(old(text)@),
                old(self).cursor.byte_pos as int,
                old(self).sel_start as int,
                old(self).sel_end as int,
                EditKey::Other,
                typed_bytes(*ins),
                true,
                shift,
                false,
            ),
        ensures
            ({
                let r = typed_effect(
                    bytes_of(old(text)@),
                    old(self).cursor.byte_pos as int,
                    old(self).sel_start as int,
                    old(self).sel_end as int,
                    typed_bytes(*ins),
                    shift,
                );
                &&& bytes_of(final(text)@) == r.0
                &&& final(self).cursor.byte_pos == r.1
                &&& final(self).sel_start == r.2
                &&& final(self).sel_end == r.3
            }),
            settled(
                bytes_of(old(text)@),
                old(self).cursor.byte_pos as int,
                old(self).sel_start as int,
                old(self).sel_end as int,
            ) ==> settled(
                bytes_of(final(text)@),
                final(self).cursor.byte_pos as int,
                final(self).sel_start as int,
                final(self).sel_end as int,
            ),
    {
        let ghost b = bytes_of(text@);
        let ghost p0 = self.cursor.byte_pos as int;
        let ghost s0 = self.sel_start as int;
        let ghost e0 = self.sel_end as int;
        match ins {
            Some(t) => {
                let s = self.sel_start;
                let e = self.sel_end;
                if s != e {
                    let lo = if s <= e {
                        s
                    } else {
                        e
                    };
                    let hi = if s <= e {
                        e
                    } else {
                        s
                    };
                    string_drain(text, lo, hi);
                    proof {
                        lemma_cut_boundaries(b, lo as int, hi as int);
                        lemma_boundary_in_range(b, hi as int);
                    }
                    self.cursor.byte_pos = lo;
                    self.sel_start = lo;
                    self.sel_end = lo;
                }
                let ghost mid = bytes_of(text@);
                let ghost pm = self.cursor.byte_pos as int;
                proof {
                    lemma_boundary_in_range(mid, pm);
                    if s == e {
                        lemma_boundary_in_range(b, p0);
                    }
                }
                self.cursor.insert(text, t.as_str());
                proof {
                    lemma_splice_boundaries(mid, pm, bytes_of(t@));
                    if s == e && s0 <= p0 && is_char_boundary(b, s0) {
                        assert(is_char_boundary(mid, s0));
                    }
                }
            },
            None => {},
        }
        if !shift {
            self.sel_start = self.cursor.byte_pos;
            self.sel_end = self.cursor.byte_pos;
        }
    }

    /// Applies one key event to the focused input whose text is `text`.
    pub fn apply_key(&mut self, text: &mut String, press: &KeyPress, shift: bool, ctrl: bool) -> (out: KeyOutcome)
        requires
            key_ok(
                bytes_of(old(text)@),
                old(self).cursor.byte_pos as int,
                old(self).sel_start as int,
                old(self).sel_end as int,
                press.key,
                typed_bytes(press.text),
                press.pressed,
                shift,
                ctrl,
            ),
        ensures
            ({
                let r = key_effect(
                    bytes_of(old(text)@),
                    old(self).cursor.byte_pos as int,
                    old(self).sel_start as int,
                    old(self).sel_end as int,
                    press.key,
                    typed_bytes(press.text),
                    press.pressed,
                    shift,
                    ctrl,
                );
                &&& bytes_of(final(text)@) == r.0
                &&& final(self).cursor.byte_pos == r.1
                &&& final(self).sel_start == r.2
                &&& final(self).sel_end == r.3
                &&& out == r.4
            }),
            settled(
                bytes_of(old(text)@),
                old(self).cursor.byte_pos as int,
                old(self).sel_start as int,
                old(self).sel_end as int,
            ) ==> settled(
                bytes_of(final(text)@),
                final(self).cursor.byte_pos as int,
                final(self).sel_start as int,
                final(self).sel_end as int,
            ),
    {
        if !press.pressed {
            return KeyOutcome::Continue;
        }
        let ghost b = bytes_of(text@);
        proof {
            assert(is_char_boundary(b, 0));
            assert(is_char_boundary(b, b.len() as int));
        }
        match press.key {
            EditKey::ArrowLeft | EditKey::ArrowRight | EditKey::Home | EditKey::End => {
                self.move_key(text, press.key, shift, ctrl);
                KeyOutcome::Continue
            },
            EditKey::Backspace => {
                self.delete_key(text, true, ctrl);
                KeyOutcome::Continue
            },
            EditKey::Delete => {
                self.delete_key(text, false, ctrl);
                KeyOutcome::Continue
            },
            EditKey::KeyA => {
                if ctrl {
                    let n = text.as_str().as_bytes().len();
                    self.sel_start = 0;
                    self.sel_end = n;
                    self.cursor.byte_pos = n;
                } else {
                    self.typed_key(text, &press.text, shift);
                }
                KeyOutcome::Continue
            },
            EditKey::Enter | EditKey::Escape => KeyOutcome::Unfocus,
            EditKey::Tab => KeyOutcome::FocusNext,
            EditKey::Other => {
                self.typed_key(text, &press.text, shift);
                KeyOutcome::Continue
            },
        }
    }
}

/// The bytes that a key types, if any.
pub open spec fn typed_bytes(t: Option<String>) -> Option<Seq<u8>> {
    match t {
        Some(s) => Some(bytes_of(s@)),
        None => None,
    }
}

/// One key event can be applied without a panic.
pub open spec fn step_ok(b: Seq<u8>, p: int, s: int, e: int, k: KeyPress, shift: bool, ctrl: bool) -> bool {
    key_ok(b, p, s, e, k.key, typed_bytes(k.text), k.pressed, shift, ctrl)
}

/// The state after applying `keys` in order, stopping after the first key
/// whose outcome is not `Continue`.
pub open spec fn run_keys(
    b: Seq<u8>,
    p: int,
    s: int,
    e: int,
    keys: Seq<KeyPress>,
    shift: bool,
    ctrl: bool,
) -> (Seq<u8>, int, int, int, KeyOutcome)
    decreases keys.len(),
{
    if keys.len() == 0 {
        (b, p, s, e, KeyOutcome::Continue)
    } else {
        let k = keys[0];
        let r = key_effect(b, p, s, e, k.key, typed_bytes(k.text), k.pressed, shift, ctrl);
        if r.4 != KeyOutcome::Continue {
            r
        } else {
            run_keys(r.0, r.1, r.2, r.3, keys.drop_first(), shift, ctrl)
        }
    }
}

/// Every key that `run_keys` applies can be applied without a panic.
pub open spec fn keys_ok(
    b: Seq<u8>,
    p: int,
    s: int,
    e: int,
    keys: Seq<KeyPress>,
    shift: bool,
    ctrl: bool,
) -> bool
    decreases keys.len(),
{
    keys.len() == 0 || {
        let k = keys[0];
        let r = key_effect(b, p, s, e, k.key, typed_bytes(k.text), k.pressed, shift, ctrl);
        &&& step_ok(b, p, s, e, k, shift, ctrl)
        &&& (r.4 == KeyOutcome::Continue ==> keys_ok(r.0, r.1, r.2, r.3, keys.drop_first(), shift, ctrl))
    }
}

/// Whether a key event ends the frame's editing: a press of Enter, Escape
/// or Tab.
pub open spec fn stops(k: KeyPress) -> bool {
    k.pressed && (k.key == EditKey::Enter || k.key == EditKey::Escape || k.key == EditKey::Tab)
}

/// How a frame's keys end the editing: as the first key that stops it asks
/// (Tab hands the focus on, Enter and Escape give it up), or not at all.
pub open spec fn keys_outcome(keys: Seq<KeyPress>) -> KeyOutcome
    decreases keys.len(),
{
    if keys.len() == 0 {
        KeyOutcome::Continue
    } else if stops(keys[0]) {
        if keys[0].key == EditKey::Tab {
            KeyOutcome::FocusNext
        } else {
            KeyOutcome::Unfocus
        }
    } else {
        keys_outcome(keys.drop_first())
    }
}

/// The outcome of one key is `Continue` exactly when it does not stop the
/// editing, and otherwise the one `keys_outcome` gives it.
proof fn lemma_key_outcome(b: Seq<u8>, p: int, s: int, e: int, k: KeyPress, shift: bool, ctrl: bool)
    ensures
        ({
            let r = key_effect(b, p, s, e, k.key, typed_bytes(k.text), k.pressed, shift, ctrl);
            &&& (r.4 == KeyOutcome::Continue <==> !stops(k))
            &&& stops(k) ==> r.4 == keys_outcome(seq![k])
        }),
{
    reveal_with_fuel(keys_outcome, 2);
}

/// The outcome of running the keys is `keys_outcome`.
proof fn lemma_run_keys_outcome(b: Seq<u8>, p: int, s: int, e: int, keys: Seq<KeyPress>, shift: bool, ctrl: bool)
    ensures
        run_keys(b, p, s, e, keys, shift, ctrl).4 == keys_outcome(keys),
    decreases keys.len(),
{
    if keys.len() > 0 {
        let k = keys[0];
        lemma_key_outcome(b, p, s, e, k, shift, ctrl);
        let r = key_effect(b, p, s, e, k.key, typed_bytes(k.text), k.pressed, shift, ctrl);
        lemma_run_keys_outcome(r.0, r.1, r.2, r.3, keys.drop_first(), shift, ctrl);
        reveal_with_fuel(keys_outcome, 2);
    }
}

impl TextEdit {
    /// Applies the key events of a frame in order; Enter, Escape and Tab end
    /// the frame's editing and are returned.
    pub fn apply_keys(&mut self, text: &mut String, keys: &Vec<KeyPress>, shift: bool, ctrl: bool) -> (out: KeyOutcome)
        requires
            keys_ok(
                bytes_of(old(text)@),
                old(self).cursor.byte_pos as int,
                old(self).sel_start as int,
                old(self).sel_end as int,
                keys@,
                shift,
                ctrl,
            ),
        ensures
            ({
                let r = run_keys(
                    bytes_of(old(text)@),
                    old(self).cursor.byte_pos as int,
                    old(self).sel_start as int,
                    old(self).sel_end as int,
                    keys@,
                    shift,
                    ctrl,
                );
                &&& bytes_of(final(text)@) == r.0
                &&& final(self).cursor.byte_pos == r.1
                &&& final(self).sel_start == r.2
                &&& final(self).sel_end == r.3
                &&& out == r.4
            }),
            out == keys_outcome(keys@),
            settled(
                bytes_of(old(text)@),
                old(self).cursor.byte_pos as int,
                old(self).sel_start as int,
                old(self).sel_end as int,
            ) ==> settled(
                bytes_of(final(text)@),
                final(self).cursor.byte_pos as int,
                final(self).sel_start as int,
                final(self).sel_end as int,
            ),
    {
        proof {
            lemma_run_keys_outcome(
                bytes_of(text@),
                self.cursor.byte_pos as int,
                self.sel_start as int,
                self.sel_end as int,
                keys@,
                shift,
                ctrl,
            );
        }
        let ghost goal = run_keys(
            bytes_of(text@),
            self.cursor.byte_pos as int,
            self.sel_start as int,
            self.sel_end as int,
            keys@,
            shift,
            ctrl,
        );
        let mut i: usize = 0;
        proof {
            assert(keys@.subrange(0, keys@.len() as int) =~= keys@);
        }
        while i < keys.len()
            invariant
                i <= keys@.len(),
                goal == run_keys(
                    bytes_of(old(text)@),
                    old(self).cursor.byte_pos as int,
                    old(self).sel_start as int,
                    old(self).sel_end as int,
                    keys@,
                    shift,
                    ctrl,
                ),
                run_keys(
                    bytes_of(text@),
                    self.cursor.byte_pos as int,
                    self.sel_start as int,
                    self.sel_end as int,
                    keys@.subrange(i as int, keys@.len() as int),
                    shift,
                    ctrl,
                ) == goal,
                keys_ok(
                    bytes_of(text@),
                    self.cursor.byte_pos as int,
                    self.sel_start as int,
                    self.sel_end as int,
                    keys@.subrange(i as int, keys@.len() as int),
                    shift,
                    ctrl,
                ),
                goal.4 == keys_outcome(keys@),
                settled(
                    bytes_of(old(text)@),
                    old(self).cursor.byte_pos as int,
                    old(self).sel_start as int,
                    old(self).sel_end as int,
                ) ==> settled(
                    bytes_of(text@),
                    self.cursor.byte_pos as int,
                    self.sel_start as int,
                    self.sel_end as int,
                ),
            decreases keys@.len() - i,
        {
            let ghost rest = keys@.subrange(i as int, keys@.len() as int);
            proof {
                assert(rest[0] == keys@[i as int]);
                assert(rest.drop_first() =~= keys@.subrange(i + 1, keys@.len() as int));
            }
            let ghost b0 = bytes_of(text@);
            let ghost p0 = self.cursor.byte_pos as int;
            let ghost s0 = self.sel_start as int;
            let ghost e0 = self.sel_end as int;
            let out = self.apply_key(text, &keys[i], shift, ctrl);
            proof {
                let k = rest[0];
                let r = key_effect(b0, p0, s0, e0, k.key, typed_bytes(k.text), k.pressed, shift, ctrl);
                assert(run_keys(b0, p0, s0, e0, rest, shift, ctrl) == if r.4 != KeyOutcome::Continue {
                    r
                } else {
                    run_keys(r.0, r.1, r.2, r.3, rest.drop_first(), shift, ctrl)
                });
            }
            match out {
                KeyOutcome::Continue => {},
                _ => {
                    return out;
                },
            }
            i = i + 1;
        }
        proof {
            assert(keys@.subrange(i as int, keys@.len() as int).len() == 0);
        }
        KeyOutcome::Continue
    }
}

/// The character boundary before `p`, as `TextCursor::move_left` finds it.
fn prev_boundary_of(text: &str, p: usize) -> (q: usize)
    ensures
        q == prev_boundary(text.spec_bytes(), p as int),
        p > 0 ==> is_prev_boundary(text.spec_bytes(), p as int, q as int),
{
    let mut c = TextCursor { byte_pos: p };
    c.move_left(text);
    proof {
        if p > 0 {
            lemma_prev_unique(text.spec_bytes(), p as int, c.byte_pos as int);
        }
    }
    c.byte_pos
}

/// Whether a jump to the left from `q` reads only characters that start
/// where it reads them.
fn word_jump_left_is_safe(text: &str, q: usize) -> (r: bool)
    requires
        q <= text.spec_bytes().len(),
    ensures
        r == word_start_safe(text.spec_bytes(), q as int),
{
    let ghost b = text.spec_bytes();
    let mut i = q;
    while i > 0
        invariant
            b == text.spec_bytes(),
            i <= q <= b.len(),
            word_start_safe(b, q as int) == word_start_safe(b, i as int),
        decreases i,
    {
        if !text.is_char_boundary(i - 1) {
            return false;
        }
        let c = TextCursor { byte_pos: i - 1 };
        match c.ch(text) {
            Some(x) => {
                if word_delimiter(x) {
                    return true;
                }
            },
            None => {},
        }
        i = i - 1;
    }
    true
}

/// Whether `press` can be applied to the input whose text is `text`
/// without a panic, for callers that test it before `apply_key`.
pub fn can_apply_key(text: &str, edit: &TextEdit, press: &KeyPress, shift: bool, ctrl: bool) -> (r: bool)
    ensures
        r == key_ok(
            text.spec_bytes(),
            edit.cursor.byte_pos as int,
            edit.sel_start as int,
            edit.sel_end as int,
            press.key,
            typed_bytes(press.text),
            press.pressed,
            shift,
            ctrl,
        ),
{
    if !press.pressed {
        return true;
    }
    let ghost b = text.spec_bytes();
    let n = text.as_bytes().len();
    let p = edit.cursor.byte_pos;
    let has = edit.sel_start != edit.sel_end;
    let sel_ok = text.is_char_boundary(edit.sel_start) && text.is_char_boundary(edit.sel_end);
    let typed_ok = match &press.text {
        Some(t) => (if has {
            sel_ok
        } else {
            text.is_char_boundary(p)
        }) && n.checked_add(t.as_str().as_bytes().len()).is_some(),
        None => true,
    };
    proof {
        is_char_boundary_start_end_of_seq(b);
    }
    match press.key {
        EditKey::ArrowLeft => {
            if (has && !shift) || !ctrl {
                true
            } else {
                let q = prev_boundary_of(text, p);
                proof {
                    if p > 0 {
                        assert(is_char_boundary(b, q as int));
                        lemma_boundary_in_range(b, q as int);
                    }
                }
                word_jump_left_is_safe(text, q)
            }
        },
        EditKey::ArrowRight => (has && !shift) || text.is_char_boundary(p),
        EditKey::Backspace => {
            if has {
                sel_ok
            } else if p > n {
                false
            } else if !ctrl {
                true
            } else {
                let q = prev_boundary_of(text, p);
                proof {
                    if p > 0 {
                        assert(is_char_boundary(b, q as int));
                        lemma_boundary_in_range(b, q as int);
                    }
                }
                word_jump_left_is_safe(text, q)
            }
        },
        EditKey::Delete => {
            if has {
                sel_ok
            } else {
                p >= n || text.is_char_boundary(p)
            }
        },
        EditKey::KeyA => ctrl || typed_ok,
        EditKey::Other => typed_ok,
        _ => true,
    }
}

/// Typing one character and then pressing Backspace gives back the text
/// and the cursor, when nothing is selected and neither shift nor ctrl is
/// held.
pub proof fn lemma_type_then_backspace(text: Seq<char>, p: int, c: char)
    requires
        is_char_boundary(bytes_of(text), p),
    ensures
        ({
            let b = bytes_of(text);
            let t = bytes_of(seq![c]);
            let r1 = key_effect(b, p, p, p, EditKey::Other, Some(t), true, false, false);
            let r2 = key_effect(r1.0, r1.1, r1.2, r1.3, EditKey::Backspace, None, true, false, false);
            &&& r2.0 == b
            &&& r2.1 == p
            &&& r2.2 == p
            &&& r2.3 == p
        }),
{
    let b = bytes_of(text);
    let t = bytes_of(seq![c]);
    lemma_boundary_in_range(b, p);
    encode_utf8_first_scalar(seq![c]);
    assert(t =~= encode_scalar(c as u32) + encode_utf8(seq![c].drop_first()));
    assert(encode_utf8(seq![c].drop_first()) =~= Seq::<u8>::empty());
    let n = t.len() as int;
    assert(n >= 1);
    assert forall|i: int| 0 < i < n implies !is_char_boundary(t, i) by {
        assert(length_of_first_scalar(t) == n);
    }
    let x = b.subrange(0, p);
    let z = b.subrange(p, b.len() as int);
    assert(x + z =~= b);
    lemma_boundary_concat(x, z);
    lemma_boundary_concat(x, t);
    lemma_boundary_concat(x + t, z);
    let b1 = splice(b, p, t);
    assert(b1 =~= (x + t) + z);
    assert(is_char_boundary(x, p)) by {
        assert(is_char_boundary(x + z, p));
    }
    assert(is_char_boundary(x + t, p)) by {
        assert(is_char_boundary(t, 0));
        assert(x.len() + 0 == p);
    }
    assert(is_char_boundary(b1, p));
    assert forall|r: int| p < r < p + n implies !is_char_boundary(b1, r) by {
        assert(!is_char_boundary(t, r - p));
        assert(is_char_boundary(x + t, x.len() + (r - p)) == is_char_boundary(t, r - p));
        assert(is_char_boundary((x + t) + z, r) == is_char_boundary(x + t, r));
    }
    assert(is_prev_boundary(b1, p + n, p));
    lemma_prev_unique(b1, p + n, p);
    assert(is_char_boundary(b1, p + n)) by {
        assert(is_char_boundary(x + t, x.len() + n) == is_char_boundary(t, n));
        assert(is_char_boundary((x + t) + z, (x + t).len() as int));
    }
    assert(is_next_boundary(b1, p, p + n));
    lemma_next_unique(b1, p, p + n);
    assert(cut(b1, p, p + n) =~= b);
}

/// Typing one character `c` with the text cursor and then deleting the
/// character before the cursor gives back the text and the cursor, for a
/// character of any width: `TextCursor::insert` at boundary `p` of a text
/// whose characters are `seq![c]` leaves the bytes `b1` and the cursor at
/// `p + t.len()`; the only boundary before that is `p`, so
/// `TextCursor::delete_before` moves back to `p` and removes exactly the
/// bytes of `c`, and the text with those bytes is the text one started with.
pub proof fn lemma_cursor_insert_then_delete_before(text: Seq<char>, p: int, c: char)
    requires
        is_char_boundary(bytes_of(text), p),
    ensures
        ({
            let b = bytes_of(text);
            let t = bytes_of(seq![c]);
            let b1 = b.subrange(0, p) + t + b.subrange(p, b.len() as int);
            &&& t.len() > 0
            &&& p + t.len() <= b1.len()
            &&& forall|q: int| #[trigger] is_prev_boundary(b1, p + t.len(), q) <==> q == p
            &&& remove_char_at(b1, p) == b
            &&& forall|s: Seq<char>| #[trigger] bytes_of(s) == b ==> s == text
        }),
{
    let b = bytes_of(text);
    let t = bytes_of(seq![c]);
    lemma_boundary_in_range(b, p);
    encode_utf8_first_scalar(seq![c]);
    assert(t =~= encode_scalar(c as u32) + encode_utf8(seq![c].drop_first()));
    assert(encode_utf8(seq![c].drop_first()) =~= Seq::<u8>::empty());
    let n = t.len() as int;
    assert(n >= 1);
    assert forall|i: int| 0 < i < n implies !is_char_boundary(t, i) by {
        assert(length_of_first_scalar(t) == n);
    }
    let x = b.subrange(0, p);
    let z = b.subrange(p, b.len() as int);
    assert(x + z =~= b);
    lemma_boundary_concat(x, z);
    lemma_boundary_concat(x, t);
    lemma_boundary_concat(x + t, z);
    let b1 = x + t + z;
    assert(is_char_boundary(x, p)) by {
        assert(is_char_boundary(x + z, p));
    }
    assert(is_char_boundary(x + t, p)) by {
        assert(is_char_boundary(t, 0));
        assert(x.len() + 0 == p);
    }
    assert(is_char_boundary(b1, p));
    assert forall|r: int| p < r < p + n implies !is_char_boundary(b1, r) by {
        assert(!is_char_boundary(t, r - p));
        assert(is_char_boundary(x + t, x.len() + (r - p)) == is_char_boundary(t, r - p));
        assert(is_char_boundary((x + t) + z, r) == is_char_boundary(x + t, r));
    }
    assert(is_prev_boundary(b1, p + n, p));
    assert forall|q: int| #[trigger] is_prev_boundary(b1, p + n, q) <==> q == p by {
        if is_prev_boundary(b1, p + n, q) && q != p {
            if q < p {
                assert(!is_char_boundary(b1, p));
            } else {
                assert(!is_char_boundary(b1, q));
            }
        }
    }
    let rest = b1.subrange(p, b1.len() as int);
    assert(rest =~= t + z);
    assert(rest[0] == t[0]);
    assert(length_of_first_scalar(rest) == length_of_first_scalar(t));
    assert(remove_char_at(b1, p) =~= b);
    assert forall|s: Seq<char>| #[trigger] bytes_of(s) == b implies s == text by {
        encode_utf8_decode_utf8(s);
        encode_utf8_decode_utf8(text);
    }
}

/// Arrow keys with shift held (and no ctrl) move the cursor by one
/// character, to the next boundary (right) or the previous one (left),
/// whatever the selection; the selection keeps its anchor and its moving
/// end follows the cursor, so repeated presses grow or shrink it one
/// character at a time.
pub proof fn lemma_shift_arrows_move_one_character(b: Seq<u8>, p: int, s: int, e: int)
    ensures
        key_effect(b, p, s, e, EditKey::ArrowRight, None, true, true, false) == (
            b,
            next_boundary(b, p),
            s,
            next_boundary(b, p),
            KeyOutcome::Continue,
        ),
        key_effect(b, p, s, e, EditKey::ArrowLeft, None, true, true, false) == (
            b,
            prev_boundary(b, p),
            s,
            prev_boundary(b, p),
            KeyOutcome::Continue,
        ),
{
}

/// Two presses of shift+ArrowRight from a cursor with at least two
/// characters after it select exactly those two characters from the
/// anchor: the cursor stands two boundaries further on.
pub proof fn lemma_shift_right_twice(b: Seq<u8>, p: int, s: int, e: int)
    ensures
        ({
            let r1 = key_effect(b, p, s, e, EditKey::ArrowRight, None, true, true, false);
            let r2 = key_effect(r1.0, r1.1, r1.2, r1.3, EditKey::ArrowRight, None, true, true, false);
            &&& r2.0 == b
            &&& r2.1 == next_boundary(b, next_boundary(b, p))
            &&& r2.2 == s
            &&& r2.3 == r2.1
        }),
{
    lemma_shift_arrows_move_one_character(b, p, s, e);
    let r1 = key_effect(b, p, s, e, EditKey::ArrowRight, None, true, true, false);
    lemma_shift_arrows_move_one_character(r1.0, r1.1, r1.2, r1.3);
}

/// Typing text `t` leaves no selection behind (with or without shift), and
/// with no selection it puts `t` in at the cursor and moves the cursor
/// behind it.
pub proof fn lemma_typing_closes_selection(b: Seq<u8>, p: int, s: int, e: int, t: Seq<u8>, shift: bool, ctrl: bool)
    ensures
        ({
            let r = key_effect(b, p, s, e, EditKey::Other, Some(t), true, shift, ctrl);
            &&& r.2 == r.3
            &&& r.4 == KeyOutcome::Continue
            &&& s == e ==> r.0 == b.subrange(0, p) + t + b.subrange(p, b.len() as int) && r.1 == p + t.len()
        }),
{
}

/// Typing two pieces of text one after the other with no selection (with
/// or without shift) inserts both in order: the second goes in right
/// after the first, never over it.
pub proof fn lemma_type_twice(b: Seq<u8>, p: int, s: int, t1: Seq<u8>, t2: Seq<u8>, shift: bool, ctrl: bool)
    ensures
        ({
            let r1 = key_effect(b, p, s, s, EditKey::Other, Some(t1), true, shift, ctrl);
            let r2 = key_effect(r1.0, r1.1, r1.2, r1.3, EditKey::Other, Some(t2), true, shift, ctrl);
            let b1 = b.subrange(0, p) + t1 + b.subrange(p, b.len() as int);
            &&& r2.0 == b1.subrange(0, p + t1.len()) + t2 + b1.subrange(p + t1.len(), b1.len() as int)
            &&& r2.1 == p + t1.len() + t2.len()
            &&& r2.2 == r2.3
        }),
{
    lemma_typing_closes_selection(b, p, s, s, t1, shift, ctrl);
    let r1 = key_effect(b, p, s, s, EditKey::Other, Some(t1), true, shift, ctrl);
    lemma_typing_closes_selection(r1.0, r1.1, r1.2, r1.3, t2, shift, ctrl);
}

/// Without shift, an arrow key on a selection puts the cursor at the
/// selection's near end (left) or far end (right) and closes it there; on
/// no selection it moves one character; Home and End go to the start and
/// the end of the text. Without shift every movement closes the selection
/// on the cursor.
pub proof fn lemma_arrows_without_shift(b: Seq<u8>, p: int, s: int, e: int)
    ensures
        ({
            let lo = if s <= e {
                s
            } else {
                e
            };
            let hi = if s <= e {
                e
            } else {
                s
            };
            let r = key_effect(b, p, s, e, EditKey::ArrowRight, None, true, false, false);
            let l = key_effect(b, p, s, e, EditKey::ArrowLeft, None, true, false, false);
            &&& s != e ==> r.1 == hi && l.1 == lo
            &&& s == e ==> r.1 == next_boundary(b, p) && l.1 == prev_boundary(b, p)
            &&& r.0 == b && r.2 == r.1 && r.3 == r.1
            &&& l.0 == b && l.2 == l.1 && l.3 == l.1
        }),
        key_effect(b, p, s, e, EditKey::Home, None, true, false, false) == (b, 0int, 0int, 0int, KeyOutcome::Continue),
        key_effect(b, p, s, e, EditKey::End, None, true, false, false) == (
            b,
            b.len() as int,
            b.len() as int,
            b.len() as int,
            KeyOutcome::Continue,
        ),
{
}

/// Backspace and Delete on a selection remove exactly the selected bytes
/// and leave the cursor, closed, where the selection began; on no
/// selection (and no ctrl) Delete removes the character after the cursor.
pub proof fn lemma_delete_keys(b: Seq<u8>, p: int, s: int, e: int, ctrl: bool)
    ensures
        ({
            let lo = if s <= e {
                s
            } else {
                e
            };
            let hi = if s <= e {
                e
            } else {
                s
            };
            let bk = key_effect(b, p, s, e, EditKey::Backspace, None, true, false, ctrl);
            let dl = key_effect(b, p, s, e, EditKey::Delete, None, true, false, ctrl);
            &&& s != e ==> bk == (b.subrange(0, lo) + b.subrange(hi, b.len() as int), lo, lo, lo, KeyOutcome::Continue)
            &&& s != e ==> dl == bk
        }),
        s == e && p < b.len() ==> key_effect(b, p, s, e, EditKey::Delete, None, true, false, false) == (
            b.subrange(0, p) + b.subrange(next_boundary(b, p), b.len() as int),
            p,
            p,
            p,
            KeyOutcome::Continue,
        ),
{
}

} // verus!
