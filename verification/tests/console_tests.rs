use game_core::console::{entry_matches, lowered_matches, ConsoleUiState, LogLevel, LogRecord, MAX_ENTRIES};

fn rec(level: LogLevel, target: &str, message: &str, frame: u64) -> LogRecord {
    LogRecord { level, target: target.to_string(), message: message.to_string(), frame }
}

fn empty_log() -> Vec<LogRecord> {
    (0..MAX_ENTRIES).map(|_| rec(LogLevel::Trace, "", "", 0)).collect()
}

fn shown(s: &ConsoleUiState) -> Vec<String> {
    (0..s.visible_count()).map(|i| s.visible_line(i).0.clone()).collect()
}

#[test]
fn level_indices_and_names() {
    assert_eq!(LogRecord::index_level(LogLevel::Trace), 0);
    assert_eq!(LogRecord::index_level(LogLevel::Debug), 1);
    assert_eq!(LogRecord::index_level(LogLevel::Info), 2);
    assert_eq!(LogRecord::index_level(LogLevel::Warn), 3);
    assert_eq!(LogRecord::index_level(LogLevel::Error), 4);
    assert_eq!(LogRecord::level_name(LogLevel::Warn), "WARN");
    assert_eq!(LogRecord::level_name(LogLevel::Error), "ERROR");
}

#[test]
fn records_format_as_padded_lines() {
    let r = rec(LogLevel::Info, "game", "started", 42);
    assert_eq!(r.format(), ("[    42] [INFO ] game: started".to_string(), 2));
    let r = rec(LogLevel::Error, "gpu", "lost", 1234567);
    assert_eq!(r.format(), ("[1234567] [ERROR] gpu: lost".to_string(), 4));
}

#[test]
fn filter_matches_case_insensitively_and_by_level() {
    let r = rec(LogLevel::Warn, "Render", "Swapchain Resized", 1);
    assert!(entry_matches(&r, "swapchain", 2));
    assert!(entry_matches(&r, "render", 3));
    assert!(entry_matches(&r, "", 0));
    assert!(!entry_matches(&r, "swapchain", 4));
    assert!(!entry_matches(&r, "texture", 0));
}

#[test]
fn new_console_state() {
    let s = ConsoleUiState::new();
    assert_eq!(s.filter_buf.len(), MAX_ENTRIES);
    assert_eq!(s.visible_count(), 0);
    assert!(s.auto_scroll);
    assert_eq!(s.min_level, 2);
    assert_eq!(s.old_head, 0);
}

#[test]
fn refresh_collects_matching_lines() {
    let mut log = empty_log();
    log[0] = rec(LogLevel::Info, "a", "one", 1);
    log[1] = rec(LogLevel::Debug, "a", "two", 1);
    log[2] = rec(LogLevel::Error, "b", "three", 2);
    let mut s = ConsoleUiState::new();
    s.refresh(&log, 3, false, false);
    assert_eq!(shown(&s), vec!["[     1] [INFO ] a: one", "[     2] [ERROR] b: three"]);
    assert_eq!(s.visible_line(1).1, 4);
    assert_eq!(s.old_head, 3);
    assert_eq!(s.matches, 2);
    // nothing new: nothing changes
    s.refresh(&log, 3, false, false);
    assert_eq!(s.matches, 2);
    // a filter change starts over from the records still in the log
    s.filter_text = "THREE".to_string();
    s.refresh(&log, 3, true, false);
    assert_eq!(shown(&s), vec!["[     2] [ERROR] b: three"]);
    s.reset_matches(3);
    assert_eq!(s.visible_count(), 0);
    assert_eq!(s.old_head, 0);
}

#[test]
fn ring_keeps_the_newest_lines() {
    let mut s = ConsoleUiState::new();
    for i in 0..MAX_ENTRIES + 5 {
        s.push_match((format!("line {}", i), 0));
    }
    assert_eq!(s.visible_count(), MAX_ENTRIES);
    assert_eq!(s.visible_line(0).0, "line 5");
    assert_eq!(s.visible_line(MAX_ENTRIES - 1).0, format!("line {}", MAX_ENTRIES + 4));
}

#[test]
fn scan_wraps_around_the_log() {
    let mut log = empty_log();
    log[1] = rec(LogLevel::Warn, "w", "wrapped", 9);
    let mut s = ConsoleUiState::new();
    s.old_head = MAX_ENTRIES;
    s.refresh(&log, MAX_ENTRIES + 2, false, false);
    assert_eq!(shown(&s), vec!["[     9] [WARN ] w: wrapped"]);
}

#[test]
fn lowered_matches_checks_text_and_level() {
    assert!(lowered_matches("loading mesh", "assets", "mesh", LogLevel::Info, 2));
    assert!(lowered_matches("done", "assets", "set", LogLevel::Warn, 2));
    assert!(!lowered_matches("done", "assets", "mesh", LogLevel::Error, 0));
    assert!(!lowered_matches("loading mesh", "assets", "mesh", LogLevel::Debug, 2));
    assert!(lowered_matches("x", "y", "", LogLevel::Trace, 0));
}

#[test]
fn log_lines_pad_the_frame_and_level() {
    let r = rec(LogLevel::Info, "net", "up", 42);
    assert_eq!(r.format().0, "[    42] [INFO ] net: up");
    let r = rec(LogLevel::Error, "", "", 1234567);
    assert_eq!(r.format().0, "[1234567] [ERROR] : ");
    let r = rec(LogLevel::Warn, "a", "b", 0);
    assert_eq!(r.format().0, format!("[{:>6}] [{:<5}] {}: {}", 0, "WARN", "a", "b"));
    let r = rec(LogLevel::Debug, "t", "m", u64::MAX);
    assert_eq!(r.format().0, format!("[{:>6}] [{:<5}] {}: {}", u64::MAX, "DEBUG", "t", "m"));
}

#[test]
fn filter_matches_runs_of_characters() {
    assert!(lowered_matches("größe", "", "öß", LogLevel::Info, 0));
    assert!(!lowered_matches("größe", "", "öse", LogLevel::Info, 0));
    assert!(lowered_matches("abc", "", "abc", LogLevel::Info, 0));
    assert!(!lowered_matches("ab", "", "abc", LogLevel::Info, 0));
    assert!(lowered_matches("", "", "", LogLevel::Info, 0));
    assert!(lowered_matches("xyz", "", "yz", LogLevel::Info, 0));
}
