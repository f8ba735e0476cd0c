//! The navigation of the asset browser: the directory it shows and the
//! history that its back and forward buttons walk.
use vstd::prelude::*;
use vstd::string::*;
use vstd::utf8::*;

verus! {

/// The directory shown, the directories left (`replay`), and the position
/// in them that the back and forward buttons move from.
pub struct NavHistory {
    pub cwd: String,
    pub replay: Vec<String>,
    pub redo_cursor: usize,
}

/// The directory, history and position after the back button.
pub open spec fn back_model(cwd: String, replay: Seq<String>, cursor: int) -> (String, Seq<String>, int) {
    (replay.push(cwd)[cursor - 1], replay.push(cwd), cursor - 1)
}

/// The directory, history and position after the forward button.
pub open spec fn forward_model(cwd: String, replay: Seq<String>, cursor: int) -> (String, Seq<String>, int) {
    (replay[cursor + 1], replay, cursor + 1)
}

/// The directory, history and position after a click on the path
/// segment that leads to `path`: a history walked back from is dropped,
/// the directory left is recorded, and the position is past the end.
pub open spec fn jump_model(cwd: String, replay: Seq<String>, cursor: int, path: String) -> (
    String,
    Seq<String>,
    int,
) {
    let kept = if cursor != replay.len() {
        Seq::<String>::empty()
    } else {
        replay
    };
    (path, kept.push(cwd), kept.len() + 1int)
}

impl NavHistory {
    /// The position never passes the end of the history.
    pub open spec fn wf(&self) -> bool {
        self.redo_cursor <= self.replay@.len()
    }

    /// The browser opening `cwd`, with no history.
    pub fn new(cwd: String) -> (h: Self)
        ensures
            h.wf(),
            h.cwd == cwd,
            h.replay@ == Seq::<String>::empty(),
            h.redo_cursor == 0,
    {
        NavHistory { cwd, replay: Vec::new(), redo_cursor: 0 }
    }

    /// Whether the back button is enabled.
    pub fn can_back(&self) -> (r: bool)
        ensures
            r == (self.redo_cursor != 0),
    {
        self.redo_cursor != 0
    }

    /// Whether the forward button is enabled.
    pub fn can_forward(&self) -> (r: bool)
        requires
            self.wf(),
        ensures
            r == (self.redo_cursor + 1 < self.replay@.len()),
    {
        self.redo_cursor < self.replay.len() && self.redo_cursor + 1 < self.replay.len()
    }

    /// The back button: the directory shown is recorded at the end of the
    /// history, and the one before the position is shown.
    pub fn back(&mut self)
        requires
            old(self).wf(),
            old(self).redo_cursor != 0,
        ensures
            final(self).wf(),
            (final(self).cwd, final(self).replay@, final(self).redo_cursor as int) == back_model(
                old(self).cwd,
                old(self).replay@,
                old(self).redo_cursor as int,
            ),
            final(self).redo_cursor == old(self).redo_cursor - 1,
            final(self).replay@ == old(self).replay@.push(old(self).cwd),
            final(self).cwd == final(self).replay@[final(self).redo_cursor as int],
    {
        self.redo_cursor = self.redo_cursor - 1;
        let shown = self.cwd.clone();
        self.replay.push(shown);
        self.cwd = self.replay[self.redo_cursor].clone();
    }

    /// The forward button: the directory after the position is shown.
    pub fn forward(&mut self)
        requires
            old(self).wf(),
            old(self).redo_cursor + 1 < old(self).replay@.len(),
        ensures
            final(self).wf(),
            (final(self).cwd, final(self).replay@, final(self).redo_cursor as int) == forward_model(
                old(self).cwd,
                old(self).replay@,
                old(self).redo_cursor as int,
            ),
            final(self).redo_cursor == old(self).redo_cursor + 1,
            final(self).replay@ == old(self).replay@,
            final(self).cwd == old(self).replay@[old(self).redo_cursor + 1],
    {
        let n = self.replay.len();
        assert(self.redo_cursor + 1 < n);
        self.redo_cursor = self.redo_cursor + 1;
        self.cwd = self.replay[self.redo_cursor].clone();
    }

    /// A click on the path segment that leads to `path`.
    pub fn jump(&mut self, path: String)
        requires
            old(self).wf(),
        ensures
            final(self).wf(),
            (final(self).cwd, final(self).replay@, final(self).redo_cursor as int) == jump_model(
                old(self).cwd,
                old(self).replay@,
                old(self).redo_cursor as int,
                path,
            ),
    {
        if self.redo_cursor != self.replay.len() {
            self.replay.clear();
        }
        let mut left = path;
        std::mem::swap(&mut left, &mut self.cwd);
        self.replay.push(left);
        self.redo_cursor = self.replay.len();
    }

    /// A double click on the directory `path`: it is shown, and the
    /// history stays as it is.
    pub fn open(&mut self, path: String)
        ensures
            final(self).cwd == path,
            final(self).replay@ == old(self).replay@,
            final(self).redo_cursor == old(self).redo_cursor,
    {
        self.cwd = path;
    }
}

/// Where the name of an entry longer than `max_chars` bytes is cut: one
/// byte before the limit, to leave room for the ellipsis.
pub open spec fn cut_at(max_chars: usize) -> int {
    if max_chars == 0 {
        0
    } else {
        max_chars - 1
    }
}

/// The name drawn under an entry: a name longer than `max_chars` bytes is
/// cut at `cut_at(max_chars)` and ends in `...`; a shorter one is drawn
/// whole. The cut must fall on a character boundary (std panics
/// otherwise).
pub fn display_name(name: &str, max_chars: usize) -> (r: String)
    requires
        name.spec_bytes().len() > max_chars ==> is_char_boundary(name.spec_bytes(), cut_at(max_chars)),
    ensures
        name.spec_bytes().len() > max_chars ==> r@ == decode_utf8(
            name.spec_bytes().subrange(0, cut_at(max_chars)),
        ) + seq!['.', '.', '.'],
        name.spec_bytes().len() <= max_chars ==> r@ == name@,
{
    if name.as_bytes().len() > max_chars {
        let k = if max_chars == 0 {
            0
        } else {
            max_chars - 1
        };
        let (pre, _) = name.split_at(k);
        proof {
            encode_utf8_decode_utf8(pre@);
            assert(decode_utf8(name.spec_bytes().subrange(0, k as int)) == pre@);
            reveal_strlit("...");
            assert("..."@ =~= seq!['.', '.', '.']);
        }
        let mut r = String::from_str(pre);
        r.append("...");
        r
    } else {
        String::from_str(name)
    }
}

/// Going back and then forward from the end of the history shows again
/// the directory one was in, and forward is enabled after the back.
pub proof fn lemma_back_then_forward(cwd: String, replay: Seq<String>)
    requires
        replay.len() > 0,
    ensures
        ({
            let b = back_model(cwd, replay, replay.len() as int);
            &&& b.2 + 1 < b.1.len()
            &&& forward_model(b.0, b.1, b.2).0 == cwd
        }),
{
}

/// Going back right after a click on a path segment shows again the
/// directory that the click left.
pub proof fn lemma_jump_then_back(cwd: String, replay: Seq<String>, cursor: int, path: String)
    requires
        0 <= cursor <= replay.len(),
    ensures
        ({
            let j = jump_model(cwd, replay, cursor, path);
            &&& j.2 != 0
            &&& back_model(j.0, j.1, j.2).0 == cwd
        }),
{
}

/// The forward button shows the directory recorded at the position it
/// moves to, one past the old position, and leaves the history as it is.
pub proof fn lemma_forward_shows_entry_at_cursor(cwd: String, replay: Seq<String>, cursor: int)
    requires
        0 <= cursor,
        cursor + 1 < replay.len(),
    ensures
        forward_model(cwd, replay, cursor).2 == cursor + 1,
        forward_model(cwd, replay, cursor).1 == replay,
        forward_model(cwd, replay, cursor).0 == replay[cursor + 1],
{
}

/// The back button records the directory shown at the end of the history
/// and shows the one recorded just before the old position.
pub proof fn lemma_back_shows_entry_before_cursor(cwd: String, replay: Seq<String>, cursor: int)
    requires
        0 < cursor <= replay.len(),
    ensures
        back_model(cwd, replay, cursor).2 == cursor - 1,
        back_model(cwd, replay, cursor).1 == replay.push(cwd),
        back_model(cwd, replay, cursor).0 == replay.push(cwd)[cursor - 1],
        cursor < replay.len() ==> back_model(cwd, replay, cursor).0 == replay[cursor - 1],
{
}

/// Forward twice after going back twice from the end of a history walks
/// the entries in order: the first forward shows the entry at position
/// `c + 1`, the second the entry at `c + 2`.
pub proof fn lemma_forward_twice(cwd: String, replay: Seq<String>, cursor: int)
    requires
        0 <= cursor,
        cursor + 2 < replay.len(),
    ensures
        ({
            let f1 = forward_model(cwd, replay, cursor);
            let f2 = forward_model(f1.0, f1.1, f1.2);
            &&& f1.0 == replay[cursor + 1]
            &&& f2.0 == replay[cursor + 2]
            &&& f2.2 == cursor + 2
        }),
{
}

/// A click on a path segment shows that directory, records the one it
/// left at the end of the history (dropping a history that was walked
/// back from), and puts the position past the end.
pub proof fn lemma_jump_records_left(cwd: String, replay: Seq<String>, cursor: int, path: String)
    ensures
        ({
            let j = jump_model(cwd, replay, cursor, path);
            &&& j.0 == path
            &&& j.1.last() == cwd
            &&& j.2 == j.1.len()
            &&& cursor == replay.len() ==> j.1 == replay.push(cwd)
            &&& cursor != replay.len() ==> j.1 == seq![cwd]
        }),
{
    let j = jump_model(cwd, replay, cursor, path);
    if cursor != replay.len() {
        assert(j.1 =~= seq![cwd]);
    }
}

} // verus!
