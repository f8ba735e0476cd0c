use game_core::text_cursor::TextCursor;
use game_core::text_edit::{can_apply_key, EditKey, KeyOutcome, KeyPress, TextEdit};

fn cur(p: usize) -> TextCursor {
    TextCursor { byte_pos: p }
}

#[test]
fn cursor_moves_over_whole_characters() {
    let text = "héllo";
    let mut c = cur(1);
    c.move_right(text);
    assert_eq!(c.byte_pos, 3);
    c.move_left(text);
    assert_eq!(c.byte_pos, 1);
    c.move_left(text);
    assert_eq!(c.byte_pos, 0);
    c.move_left(text);
    assert_eq!(c.byte_pos, 0);
    let mut e = cur(6);
    e.move_right(text);
    assert_eq!(e.byte_pos, 6);
}

#[test]
fn cursor_reads_characters() {
    let text = "héllo";
    assert_eq!(cur(1).ch(text), Some('é'));
    assert_eq!(cur(0).ch(text), Some('h'));
    assert_eq!(cur(6).ch(text), None);
    assert_eq!(cur(1).ch_before(text), Some('h'));
    assert_eq!(cur(0).ch_before(text), None);
    assert_eq!(cur(4).ch_before(text), Some('l'));
}

#[test]
fn cursor_inserts_and_deletes() {
    let mut text = String::from("ab");
    let mut c = cur(1);
    c.insert(&mut text, "xy");
    assert_eq!(text, "axyb");
    assert_eq!(c.byte_pos, 3);

    let mut text = String::from("héllo");
    let mut c = cur(3);
    c.delete_before(&mut text);
    assert_eq!(text, "hllo");
    assert_eq!(c.byte_pos, 1);

    let mut c = cur(0);
    c.delete_before(&mut text);
    assert_eq!(text, "hllo");
    assert_eq!(c.byte_pos, 0);

    let mut text = String::from("héllo");
    let mut c = cur(1);
    c.delete_after(&mut text);
    assert_eq!(text, "hllo");
    assert_eq!(c.byte_pos, 1);

    let mut c = cur(4);
    c.delete_after(&mut text);
    assert_eq!(text, "hllo");
    assert_eq!(c.byte_pos, 4);
}

fn press(key: EditKey) -> KeyPress {
    KeyPress { key, text: None, pressed: true }
}

fn typed(s: &str) -> KeyPress {
    KeyPress { key: EditKey::Other, text: Some(s.to_string()), pressed: true }
}

fn at(p: usize) -> TextEdit {
    TextEdit { cursor: cur(p), sel_start: p, sel_end: p }
}

#[test]
fn typing_inserts_at_cursor() {
    let mut text = String::new();
    let mut e = TextEdit::focus(0);
    assert_eq!(e.apply_key(&mut text, &typed("a"), false, false), KeyOutcome::Continue);
    assert_eq!(e.apply_key(&mut text, &typed("é"), false, false), KeyOutcome::Continue);
    assert_eq!(text, "aé");
    assert_eq!((e.cursor.byte_pos, e.sel_start, e.sel_end), (3, 3, 3));
}

#[test]
fn focus_selects_all_and_typing_replaces_it() {
    let mut text = String::from("hello world");
    let mut e = TextEdit::focus(text.len());
    assert_eq!((e.cursor.byte_pos, e.sel_start, e.sel_end), (11, 0, 11));
    e.apply_key(&mut text, &typed("x"), false, false);
    assert_eq!(text, "x");
    assert_eq!((e.cursor.byte_pos, e.sel_start, e.sel_end), (1, 1, 1));
}

#[test]
fn arrow_collapses_selection() {
    let mut text = String::from("abc");
    let mut e = TextEdit::focus(3);
    e.apply_key(&mut text, &press(EditKey::ArrowLeft), false, false);
    assert_eq!((e.cursor.byte_pos, e.sel_start, e.sel_end), (0, 0, 0));
    let mut e = TextEdit::focus(3);
    e.apply_key(&mut text, &press(EditKey::ArrowRight), false, false);
    assert_eq!((e.cursor.byte_pos, e.sel_start, e.sel_end), (3, 3, 3));
    assert_eq!(text, "abc");
}

#[test]
fn ctrl_arrows_jump_words() {
    let mut text = String::from("foo bar.baz");
    let mut e = at(11);
    e.apply_key(&mut text, &press(EditKey::ArrowLeft), false, true);
    assert_eq!(e.cursor.byte_pos, 8);
    e.apply_key(&mut text, &press(EditKey::ArrowLeft), false, true);
    assert_eq!(e.cursor.byte_pos, 4);
    e.apply_key(&mut text, &press(EditKey::ArrowLeft), false, true);
    assert_eq!(e.cursor.byte_pos, 0);

    let mut text = String::from("foo bar");
    let mut e = at(0);
    e.apply_key(&mut text, &press(EditKey::ArrowRight), false, true);
    assert_eq!(e.cursor.byte_pos, 3);
    e.apply_key(&mut text, &press(EditKey::ArrowRight), false, true);
    assert_eq!(e.cursor.byte_pos, 7);
    assert_eq!((e.sel_start, e.sel_end), (7, 7));
}

#[test]
fn ctrl_right_skips_multibyte_characters() {
    let mut text = String::from("größe x");
    let mut e = at(0);
    e.apply_key(&mut text, &press(EditKey::ArrowRight), false, true);
    assert_eq!(e.cursor.byte_pos, 7);
}

#[test]
fn backspace_and_delete() {
    let mut text = String::from("héllo");
    let mut e = at(3);
    e.apply_key(&mut text, &press(EditKey::Backspace), false, false);
    assert_eq!(text, "hllo");
    assert_eq!((e.cursor.byte_pos, e.sel_start, e.sel_end), (1, 1, 1));

    e.apply_key(&mut text, &press(EditKey::Delete), false, false);
    assert_eq!(text, "hlo");
    assert_eq!(e.cursor.byte_pos, 1);

    let mut e = at(3);
    e.apply_key(&mut text, &press(EditKey::Delete), false, false);
    assert_eq!(text, "hlo");
    assert_eq!(e.cursor.byte_pos, 3);

    let mut e = at(0);
    e.apply_key(&mut text, &press(EditKey::Backspace), false, false);
    assert_eq!(text, "hlo");
    assert_eq!(e.cursor.byte_pos, 0);
}

#[test]
fn backspace_inside_a_character_removes_it() {
    let mut text = String::from("héllo");
    let mut e = at(2);
    e.apply_key(&mut text, &press(EditKey::Backspace), false, false);
    assert_eq!(text, "hllo");
    assert_eq!((e.cursor.byte_pos, e.sel_start, e.sel_end), (1, 1, 1));
}

#[test]
fn ctrl_backspace_and_delete_remove_words() {
    let mut text = String::from("foo bar");
    let mut e = at(7);
    e.apply_key(&mut text, &press(EditKey::Backspace), false, true);
    assert_eq!(text, "foo ");
    assert_eq!(e.cursor.byte_pos, 4);

    let mut text = String::from("foo bar");
    let mut e = at(0);
    e.apply_key(&mut text, &press(EditKey::Delete), false, true);
    assert_eq!(text, " bar");
    assert_eq!(e.cursor.byte_pos, 0);
}

#[test]
fn selection_is_deleted_as_a_whole() {
    let mut text = String::from("abcdef");
    let mut e = TextEdit { cursor: cur(1), sel_start: 4, sel_end: 1 };
    e.apply_key(&mut text, &press(EditKey::Delete), false, false);
    assert_eq!(text, "aef");
    assert_eq!((e.cursor.byte_pos, e.sel_start, e.sel_end), (1, 1, 1));
}

#[test]
fn shift_extends_selection_and_typing_replaces_it() {
    let mut text = String::from("abc");
    let mut e = at(3);
    e.apply_key(&mut text, &press(EditKey::ArrowLeft), true, false);
    assert_eq!((e.cursor.byte_pos, e.sel_start, e.sel_end), (2, 3, 2));
    e.apply_key(&mut text, &typed("X"), false, false);
    assert_eq!(text, "abX");
    assert_eq!((e.cursor.byte_pos, e.sel_start, e.sel_end), (3, 3, 3));
}

#[test]
fn home_end_and_select_all() {
    let mut text = String::from("abc");
    let mut e = at(1);
    e.apply_key(&mut text, &press(EditKey::End), false, false);
    assert_eq!((e.cursor.byte_pos, e.sel_start, e.sel_end), (3, 3, 3));
    e.apply_key(&mut text, &press(EditKey::Home), true, false);
    assert_eq!((e.cursor.byte_pos, e.sel_start, e.sel_end), (0, 3, 0));
    let mut e = at(1);
    e.apply_key(&mut text, &press(EditKey::KeyA), false, true);
    assert_eq!((e.cursor.byte_pos, e.sel_start, e.sel_end), (3, 0, 3));
    // without ctrl the key just types
    let mut e = at(1);
    let a = KeyPress { key: EditKey::KeyA, text: Some("a".to_string()), pressed: true };
    e.apply_key(&mut text, &a, false, false);
    assert_eq!(text, "aabc");
}

#[test]
fn enter_escape_tab_and_releases() {
    let mut text = String::from("abc");
    let mut e = at(1);
    assert_eq!(e.apply_key(&mut text, &press(EditKey::Enter), false, false), KeyOutcome::Unfocus);
    assert_eq!(e.apply_key(&mut text, &press(EditKey::Escape), false, false), KeyOutcome::Unfocus);
    assert_eq!(e.apply_key(&mut text, &press(EditKey::Tab), false, false), KeyOutcome::FocusNext);
    let released = KeyPress { key: EditKey::Backspace, text: None, pressed: false };
    assert_eq!(e.apply_key(&mut text, &released, false, false), KeyOutcome::Continue);
    assert_eq!(text, "abc");
    assert_eq!(e.cursor.byte_pos, 1);
    // a key without text closes the selection on the cursor
    let mut e = TextEdit { cursor: cur(2), sel_start: 0, sel_end: 2 };
    e.apply_key(&mut text, &press(EditKey::Other), false, false);
    assert_eq!((e.cursor.byte_pos, e.sel_start, e.sel_end), (2, 2, 2));
}

#[test]
fn keys_stop_at_enter() {
    let mut text = String::new();
    let mut e = TextEdit::focus(0);
    let keys = vec![typed("a"), typed("b"), press(EditKey::Enter), typed("c")];
    assert_eq!(e.apply_keys(&mut text, &keys, false, false), KeyOutcome::Unfocus);
    assert_eq!(text, "ab");
    let keys = vec![typed("c"), press(EditKey::Backspace), typed("d")];
    assert_eq!(e.apply_keys(&mut text, &keys, false, false), KeyOutcome::Continue);
    assert_eq!(text, "abd");
}

#[test]
fn clamp_pulls_back_into_text() {
    let mut e = TextEdit { cursor: cur(9), sel_start: 2, sel_end: 7 };
    e.clamp(5);
    assert_eq!((e.cursor.byte_pos, e.sel_start, e.sel_end), (5, 2, 5));
}

#[test]
fn cursor_insert_then_delete_before_restores() {
    for ch in ['a', 'é', '€', '😀'] {
        let mut text = String::from("aé€b");
        let mut c = cur(3);
        c.insert(&mut text, &ch.to_string());
        assert_eq!(c.byte_pos, 3 + ch.len_utf8());
        c.delete_before(&mut text);
        assert_eq!(text, "aé€b");
        assert_eq!(c.byte_pos, 3);
    }
}

fn kp(key: EditKey, text: Option<&str>) -> KeyPress {
    KeyPress { key, text: text.map(|t| t.to_string()), pressed: true }
}

#[test]
fn frame_of_keys_stops_at_enter_escape_or_tab() {
    let mut text = String::from("ab");
    let mut e = TextEdit::focus(2);
    let keys = vec![kp(EditKey::End, None), kp(EditKey::Other, Some("c")), kp(EditKey::Escape, None), kp(EditKey::Other, Some("d"))];
    assert_eq!(e.apply_keys(&mut text, &keys, false, false), KeyOutcome::Unfocus);
    assert_eq!(text, "abc");
    assert_eq!(e.cursor.byte_pos, 3);
    let keys = vec![kp(EditKey::Other, Some("x")), kp(EditKey::Tab, None), kp(EditKey::Enter, None)];
    assert_eq!(e.apply_keys(&mut text, &keys, false, false), KeyOutcome::FocusNext);
    assert_eq!(text, "abcx");
    let keys = vec![kp(EditKey::Home, None), KeyPress { key: EditKey::Enter, text: None, pressed: false }];
    assert_eq!(e.apply_keys(&mut text, &keys, false, false), KeyOutcome::Continue);
    assert_eq!(e.cursor.byte_pos, 0);
}

#[test]
fn can_apply_key_refuses_cuts_inside_characters() {
    let text = "aé b";
    let inside = TextEdit { cursor: cur(2), sel_start: 2, sel_end: 2 };
    let at = TextEdit { cursor: cur(3), sel_start: 3, sel_end: 3 };
    assert!(!can_apply_key(text, &inside, &kp(EditKey::Delete, None), false, false));
    assert!(can_apply_key(text, &at, &kp(EditKey::Delete, None), false, false));
    assert!(!can_apply_key(text, &inside, &kp(EditKey::Other, Some("x")), false, false));
    assert!(can_apply_key(text, &inside, &kp(EditKey::Home, None), false, false));
    assert!(can_apply_key(text, &inside, &KeyPress { key: EditKey::Delete, text: None, pressed: false }, false, false));
    // A word jump to the left reads the byte before each position: from
    // after the 'é' it reads its second byte, which starts no character.
    assert!(!can_apply_key(text, &TextEdit { cursor: cur(4), sel_start: 4, sel_end: 4 }, &kp(EditKey::ArrowLeft, None), false, true));
    assert!(can_apply_key(text, &TextEdit { cursor: cur(5), sel_start: 5, sel_end: 5 }, &kp(EditKey::ArrowLeft, None), false, true));
}

#[test]
fn click_moves_cursor_and_selection() {
    let mut e = TextEdit { cursor: cur(1), sel_start: 1, sel_end: 4 };
    e.click_at(3, false);
    assert_eq!((e.cursor.byte_pos, e.sel_start, e.sel_end), (3, 3, 3));
    e.click_at(6, true);
    assert_eq!((e.cursor.byte_pos, e.sel_start, e.sel_end), (6, 3, 6));
}
