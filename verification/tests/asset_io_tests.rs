use game_core::asset_io::{read_len_slice, read_slice, read_u64, write_slice, ReadError};
use game_core::browser::{display_name, NavHistory};
use game_core::listing::{sort_entries, DirEntry};

#[test]
fn arrays_read_back_as_written() {
    let mut out = vec![9u8];
    write_slice(&mut out, 3, &[1, 2, 3, 4, 5, 6]);
    write_slice(&mut out, 0, &[]);
    assert_eq!(out.len(), 1 + 8 + 6 + 8);
    assert_eq!(&out[1..9], &3u64.to_le_bytes());
    let (bytes, next) = read_slice(&out, 1, 2).unwrap();
    assert_eq!(bytes, vec![1, 2, 3, 4, 5, 6]);
    assert_eq!(next, 15);
    let (bytes, next) = read_slice(&out, next, 2).unwrap();
    assert!(bytes.is_empty());
    assert_eq!(next, out.len());
}

#[test]
fn reading_past_the_end_fails() {
    let mut out = Vec::new();
    write_slice(&mut out, 4, &[1, 2, 3]);
    assert_eq!(read_slice(&out, 0, 1), Err(ReadError::UnexpectedEof));
    assert_eq!(read_u64(&out, 5), Err(ReadError::UnexpectedEof));
    assert_eq!(read_u64(&out, 0), Ok((4, 8)));
    assert_eq!(read_len_slice(&out, 8, 3, 1), Ok((vec![1, 2, 3], 11)));
    assert_eq!(read_len_slice(&out, 8, 2, 2), Err(ReadError::UnexpectedEof));
    assert_eq!(read_u64(&out, 100), Err(ReadError::UnexpectedEof));
}

#[test]
fn browser_back_and_forward_walk_the_history() {
    let mut h = NavHistory::new("/a/b".to_string());
    assert!(!h.can_back());
    assert!(!h.can_forward());
    h.jump("/a".to_string());
    assert_eq!(h.cwd, "/a");
    assert_eq!(h.replay, vec!["/a/b".to_string()]);
    assert_eq!(h.redo_cursor, 1);
    assert!(h.can_back());
    h.back();
    assert_eq!(h.cwd, "/a/b");
    assert_eq!(h.redo_cursor, 0);
    assert!(h.can_forward());
    h.forward();
    assert_eq!(h.cwd, "/a");
    assert_eq!(h.redo_cursor, 1);
}

#[test]
fn browser_jump_after_back_drops_the_history() {
    let mut h = NavHistory::new("/a/b/c".to_string());
    h.jump("/a/b".to_string());
    h.jump("/a".to_string());
    h.back();
    assert_eq!(h.cwd, "/a/b");
    h.jump("/".to_string());
    assert_eq!(h.cwd, "/");
    assert_eq!(h.replay, vec!["/a/b".to_string()]);
    assert_eq!(h.redo_cursor, 1);
    h.open("/x".to_string());
    assert_eq!(h.cwd, "/x");
    assert_eq!(h.redo_cursor, 1);
}

#[test]
fn display_name_cuts_long_names() {
    assert_eq!(display_name("short.png", 17), "short.png");
    assert_eq!(display_name("a_rather_long_texture_name.png", 17), "a_rather_long_te...");
    assert_eq!(display_name("abc", 0), "...");
    assert_eq!(display_name("héllo", 4), "hé...");
}

fn entry(name: &str, is_dir: bool) -> DirEntry {
    DirEntry { name: name.to_string(), is_dir, extention: String::new() }
}

#[test]
fn listing_puts_directories_first_then_names() {
    let mut v = vec![entry("b.png", false), entry("textures", true), entry("B.png", false), entry("a", true), entry("ab", false), entry("a", false)];
    sort_entries(&mut v);
    let got: Vec<(String, bool)> = v.iter().map(|e| (e.name.clone(), e.is_dir)).collect();
    let want = vec![("a", true), ("textures", true), ("B.png", false), ("a", false), ("ab", false), ("b.png", false)];
    assert_eq!(got, want.into_iter().map(|(n, d)| (n.to_string(), d)).collect::<Vec<_>>());
}
