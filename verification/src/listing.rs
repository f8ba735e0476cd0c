//! The order of the asset browser's listing: directories first, then by
//! name, names compared byte by byte as `String` orders them.
use crate::text_cursor::bytes_of;
use core::cmp::Ordering;
use vstd::prelude::*;
use vstd::string::*;

verus! {

/// An entry of a directory as the browser lists it.
pub struct DirEntry {
    pub name: String,
    pub is_dir: bool,
    pub extention: String,
}

/// `a` comes before `b` in lexicographic byte order (a proper prefix comes
/// first).
pub open spec fn bytes_lt(a: Seq<u8>, b: Seq<u8>) -> bool
    decreases a.len(),
{
    if a.len() == 0 {
        b.len() > 0
    } else if b.len() == 0 {
        false
    } else if a[0] != b[0] {
        a[0] < b[0]
    } else {
        bytes_lt(a.drop_first(), b.drop_first())
    }
}

/// Entry `a` is listed before entry `b`: a directory before a file, and
/// otherwise by the bytes of the name.
pub open spec fn entry_before(a: DirEntry, b: DirEntry) -> bool {
    (a.is_dir && !b.is_dir) || (a.is_dir == b.is_dir && bytes_lt(bytes_of(a.name@), bytes_of(b.name@)))
}

/// Past a common first byte, the byte order is that of the rests.
proof fn lemma_bytes_lt_skip(a: Seq<u8>, b: Seq<u8>, i: int)
    requires
        0 <= i <= a.len(),
        i <= b.len(),
        a.subrange(0, i) == b.subrange(0, i),
    ensures
        bytes_lt(a, b) == bytes_lt(a.skip(i), b.skip(i)),
    decreases i,
{
    if i > 0 {
        assert(a[0] == a.subrange(0, i)[0]);
        assert(b[0] == b.subrange(0, i)[0]);
        assert(a.drop_first().subrange(0, i - 1) =~= a.subrange(0, i).drop_first());
        assert(b.drop_first().subrange(0, i - 1) =~= b.subrange(0, i).drop_first());
        lemma_bytes_lt_skip(a.drop_first(), b.drop_first(), i - 1);
        assert(a.drop_first().skip(i - 1) =~= a.skip(i));
        assert(b.drop_first().skip(i - 1) =~= b.skip(i));
    } else {
        assert(a.skip(0) =~= a);
        assert(b.skip(0) =~= b);
    }
}

/// The length of the longest common prefix of `a` and `b`.
fn common_prefix(a: &[u8], b: &[u8]) -> (i: usize)
    ensures
        i <= a@.len(),
        i <= b@.len(),
        a@.subrange(0, i as int) == b@.subrange(0, i as int),
        i < a@.len() && i < b@.len() ==> a@[i as int] != b@[i as int],
{
    let mut i: usize = 0;
    while i < a.len() && i < b.len()
        invariant
            i <= a@.len(),
            i <= b@.len(),
            a@.subrange(0, i as int) == b@.subrange(0, i as int),
        decreases a@.len() - i,
    {
        if a[i] != b[i] {
            return i;
        }
        assert(a@.subrange(0, i + 1) =~= a@.subrange(0, i as int).push(a@[i as int]));
        assert(b@.subrange(0, i + 1) =~= b@.subrange(0, i as int).push(b@[i as int]));
        i = i + 1;
    }
    i
}

/// The byte order is decided at the first difference, or by length when
/// one is a prefix of the other.
proof fn lemma_first_difference(a: Seq<u8>, b: Seq<u8>, i: usize)
    requires
        i <= a.len(),
        i <= b.len(),
        a.subrange(0, i as int) == b.subrange(0, i as int),
        i < a.len() && i < b.len() ==> a[i as int] != b[i as int],
    ensures
        i < a.len() && i < b.len() ==> bytes_lt(a, b) == (a[i as int] < b[i as int]) && bytes_lt(b, a) == (
        b[i as int] < a[i as int]),
        i == a.len() || i == b.len() ==> bytes_lt(a, b) == (a.len() < b.len()) && bytes_lt(b, a) == (
        b.len() < a.len()),
{
    lemma_bytes_lt_skip(a, b, i as int);
    assert(b.subrange(0, i as int) == a.subrange(0, i as int));
    lemma_bytes_lt_skip(b, a, i as int);
    if i < a.len() && i < b.len() {
        assert(a.skip(i as int)[0] == a[i as int]);
        assert(b.skip(i as int)[0] == b[i as int]);
    }
}

/// Compares two byte strings in lexicographic order.
fn compare_bytes(a: &[u8], b: &[u8]) -> (o: Ordering)
    ensures
        (o is Less) <==> bytes_lt(a@, b@),
        (o is Greater) <==> bytes_lt(b@, a@),
{
    let i = common_prefix(a, b);
    proof {
        lemma_first_difference(a@, b@, i);
    }
    if i < a.len() && i < b.len() {
        if a[i] < b[i] {
            Ordering::Less
        } else {
            Ordering::Greater
        }
    } else if a.len() < b.len() {
        Ordering::Less
    } else if b.len() < a.len() {
        Ordering::Greater
    } else {
        Ordering::Equal
    }
}

/// The listing order of two entries.
pub fn entry_order(a: &DirEntry, b: &DirEntry) -> (o: Ordering)
    ensures
        (o is Less) <==> entry_before(*a, *b),
        (o is Greater) <==> entry_before(*b, *a),
{
    if a.is_dir && !b.is_dir {
        Ordering::Less
    } else if !a.is_dir && b.is_dir {
        Ordering::Greater
    } else {
        compare_bytes(a.name.as_str().as_bytes(), b.name.as_str().as_bytes())
    }
}

/// `slice::sort_by` with `entry_order`, which orders the entries totally:
/// the entries come out in listing order, and the same entries as before.
#[verifier::external_body]
fn sort_by_entry_order(entries: &mut Vec<DirEntry>)
    ensures
        final(entries)@.to_multiset() == old(entries)@.to_multiset(),
        forall|i: int, j: int|
            0 <= i < j < final(entries)@.len() ==> !entry_before(final(entries)@[j], final(entries)@[i]),
{
    entries.sort_by(|a, b| entry_order(a, b))
}

/// Puts a directory's entries in listing order: directories first, then
/// by name.
pub fn sort_entries(entries: &mut Vec<DirEntry>)
    ensures
        final(entries)@.to_multiset() == old(entries)@.to_multiset(),
        forall|i: int, j: int|
            0 <= i < j < final(entries)@.len() ==> !entry_before(final(entries)@[j], final(entries)@[i]),
{
    sort_by_entry_order(entries);
}

} // verus!
