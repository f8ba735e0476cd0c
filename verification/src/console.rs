//! The editor console: log records, their one-line text form, and the
//! filtered view of the most recent matching lines.
use vstd::prelude::*;
use vstd::std_specs::iter::IteratorSpec;
use vstd::string::*;

verus! {

/// The severity of a log record, from least to most severe.
#[derive(Copy, Clone, Debug, PartialEq, Eq, Structural)]
pub enum LogLevel {
    Trace,
    Debug,
    Info,
    Warn,
    Error,
}

/// A record as the console keeps it.
#[derive(Debug)]
pub struct LogRecord {
    pub level: LogLevel,
    pub target: String,
    pub message: String,
    pub frame: u64,
}

/// The number of records the log keeps, and of matching lines the
/// console keeps.
pub const MAX_ENTRIES: usize = 10_000;

/// The index of a level among `TRACE, DEBUG, INFO, WARN, ERROR`.
pub open spec fn level_index(l: LogLevel) -> u8 {
    match l {
        LogLevel::Trace => 0,
        LogLevel::Debug => 1,
        LogLevel::Info => 2,
        LogLevel::Warn => 3,
        LogLevel::Error => 4,
    }
}

/// The name of a level as the console prints it.
pub open spec fn level_name(l: LogLevel) -> Seq<char> {
    match l {
        LogLevel::Trace => seq!['T', 'R', 'A', 'C', 'E'],
        LogLevel::Debug => seq!['D', 'E', 'B', 'U', 'G'],
        LogLevel::Info => seq!['I', 'N', 'F', 'O'],
        LogLevel::Warn => seq!['W', 'A', 'R', 'N'],
        LogLevel::Error => seq!['E', 'R', 'R', 'O', 'R'],
    }
}

/// The decimal digits of `n`, without leading zeros.
pub open spec fn decimal(n: nat) -> Seq<char>
    decreases n,
{
    if n < 10 {
        seq![(48 + n) as char]
    } else {
        decimal(n / 10) + seq![(48 + n % 10) as char]
    }
}

/// `s` right-aligned in a field of `w` characters.
pub open spec fn pad_left(s: Seq<char>, w: nat) -> Seq<char> {
    if s.len() < w {
        Seq::new((w - s.len()) as nat, |i: int| ' ') + s
    } else {
        s
    }
}

/// `s` left-aligned in a field of `w` characters.
pub open spec fn pad_right(s: Seq<char>, w: nat) -> Seq<char> {
    if s.len() < w {
        s + Seq::new((w - s.len()) as nat, |i: int| ' ')
    } else {
        s
    }
}

/// The line `[frame] [LEVEL] target: message`, the frame right-aligned in
/// six characters and the level name left-aligned in five.
pub open spec fn log_line(frame: u64, level: Seq<char>, target: Seq<char>, message: Seq<char>) -> Seq<char> {
    seq!['['] + pad_left(decimal(frame as nat), 6) + seq![']', ' ', '['] + pad_right(level, 5) + seq![
        ']',
        ' ',
    ] + target + seq![':', ' '] + message
}

/// The character of a decimal digit.
fn digit_str(d: u64) -> (s: &'static str)
    requires
        d < 10,
    ensures
        s@ == seq![(48 + d) as char],
{
    proof {
        reveal_strlit("0");
        reveal_strlit("1");
        reveal_strlit("2");
        reveal_strlit("3");
        reveal_strlit("4");
        reveal_strlit("5");
        reveal_strlit("6");
        reveal_strlit("7");
        reveal_strlit("8");
        reveal_strlit("9");
    }
    if d == 0 {
        "0"
    } else if d == 1 {
        "1"
    } else if d == 2 {
        "2"
    } else if d == 3 {
        "3"
    } else if d == 4 {
        "4"
    } else if d == 5 {
        "5"
    } else if d == 6 {
        "6"
    } else if d == 7 {
        "7"
    } else if d == 8 {
        "8"
    } else {
        "9"
    }
}

/// `10` to the power `k`.
pub open spec fn pow10(k: nat) -> nat
    decreases k,
{
    if k == 0 {
        1
    } else {
        10 * pow10((k - 1) as nat)
    }
}

/// A number below `10^k` has at most `k` digits.
proof fn lemma_decimal_len_le(n: nat, k: nat)
    requires
        1 <= k,
        n < pow10(k),
    ensures
        decimal(n).len() <= k,
    decreases k,
{
    if n >= 10 {
        if k == 1 {
            assert(pow10(1) == 10 * pow10(0));
        } else {
            let p = pow10((k - 1) as nat);
            assert(n < 10 * p);
            assert(n / 10 < p) by (nonlinear_arith)
                requires
                    n < 10 * p,
            ;
            lemma_decimal_len_le(n / 10, (k - 1) as nat);
        }
    }
}

/// The number of decimal digits of `n`.
fn decimal_len(n: u64) -> (l: usize)
    ensures
        l == decimal(n as nat).len(),
    decreases n,
{
    if n < 10 {
        1
    } else {
        let rest = decimal_len(n / 10);
        proof {
            reveal_with_fuel(pow10, 20);
            assert(pow10(19) == 10000000000000000000nat);
            lemma_decimal_len_le((n / 10) as nat, 19);
        }
        rest + 1
    }
}

/// Appends the decimal digits of `n` to `r`.
fn push_decimal(r: &mut String, n: u64)
    ensures
        final(r)@ == old(r)@ + decimal(n as nat),
    decreases n,
{
    if n >= 10 {
        push_decimal(r, n / 10);
    }
    r.append(digit_str(n % 10));
    proof {
        assert(final(r)@ =~= old(r)@ + decimal(n as nat)) by {
            if n >= 10 {
                assert(decimal(n as nat) == decimal((n / 10) as nat) + seq![(48 + n % 10) as char]);
            }
        }
    }
}

/// `frame` in decimal, right-aligned in six characters, as
/// `format!("{:>6}", frame)` writes it.
fn padded_frame(frame: u64) -> (r: String)
    ensures
        r@ == pad_left(decimal(frame as nat), 6),
{
    let l = decimal_len(frame);
    let mut r = String::new();
    let mut k: usize = 0;
    let pad: usize = if l < 6 {
        6 - l
    } else {
        0
    };
    while k < pad
        invariant
            k <= pad,
            l == decimal(frame as nat).len(),
            pad == if l < 6 {
                6 - l
            } else {
                0
            },
            r@ == Seq::new(k as nat, |i: int| ' '),
        decreases pad - k,
    {
        proof {
            reveal_strlit(" ");
        }
        r.append(" ");
        k = k + 1;
        assert(r@ =~= Seq::new(k as nat, |i: int| ' '));
    }
    push_decimal(&mut r, frame);
    assert(r@ =~= pad_left(decimal(frame as nat), 6));
    r
}

/// The line `[frame] [LEVEL] target: message` of a record, as the console
/// prints it.
fn format_log_line(frame: u64, level: LogLevel, target: &str, message: &str) -> (r: String)
    ensures
        r@ == log_line(frame, level_name(level), target@, message@),
{
    let name = LogRecord::level_name(level);
    proof {
        reveal_strlit("[");
        reveal_strlit("] [");
        reveal_strlit("] ");
        reveal_strlit(": ");
        reveal_strlit(" ");
    }
    let mut r = String::from_str("[");
    let f = padded_frame(frame);
    r.append(f.as_str());
    r.append("] [");
    r.append(name);
    if name.unicode_len() < 5 {
        r.append(" ");
    }
    r.append("] ");
    r.append(target);
    r.append(": ");
    r.append(message);
    proof {
        assert(pad_right(level_name(level), 5) =~= if level_name(level).len() < 5 {
            level_name(level) + seq![' ']
        } else {
            level_name(level)
        });
        assert(r@ =~= log_line(frame, level_name(level), target@, message@));
    }
    r
}

/// The lowercase form of a text, as `str::to_lowercase` maps it.
pub uninterp spec fn lowercase(s: Seq<char>) -> Seq<char>;

/// `str::to_lowercase`: its result depends on the text alone.
#[verifier::external_body]
fn to_lowercase(s: &str) -> (r: String)
    ensures
        r@ == lowercase(s@),
{
    s.to_lowercase()
}

/// `pat` occurs in `s` as a run of consecutive characters.
pub open spec fn contains_seq(s: Seq<char>, pat: Seq<char>) -> bool {
    exists|i: int| 0 <= i <= s.len() - pat.len() && #[trigger] s.subrange(i, i + pat.len()) == pat
}

/// The characters of `s`, in order.
fn chars_of(s: &str) -> (v: Vec<char>)
    ensures
        v@ == s@,
{
    broadcast use vstd::string::group_string_axioms;

    let mut v: Vec<char> = Vec::new();
    for c in it: s.chars()
        invariant
            v@ == it.seq().take(it.index()),
    {
        v.push(c);
    }
    assert(v@ =~= s@);
    v
}

/// Whether `pat` occurs in `s` at position `i`.
fn occurs_at(s: &Vec<char>, pat: &Vec<char>, i: usize) -> (r: bool)
    requires
        i + pat@.len() <= s@.len(),
    ensures
        r == (s@.subrange(i as int, i + pat@.len()) == pat@),
{
    let n = s.len();
    let mut k: usize = 0;
    while k < pat.len()
        invariant
            n == s@.len(),
            i + pat@.len() <= s@.len(),
            k <= pat@.len(),
            s@.subrange(i as int, i + k) == pat@.subrange(0, k as int),
        decreases pat@.len() - k,
    {
        if s[i + k] != pat[k] {
            assert(s@.subrange(i as int, i + pat@.len())[k as int] != pat@[k as int]);
            return false;
        }
        assert(s@.subrange(i as int, i + k + 1) =~= s@.subrange(i as int, i + k).push(s@[i + k]));
        assert(pat@.subrange(0, k + 1) =~= pat@.subrange(0, k as int).push(pat@[k as int]));
        k = k + 1;
    }
    assert(pat@.subrange(0, pat@.len() as int) =~= pat@);
    true
}

/// Whether `pat` occurs in `s` as a run of consecutive characters, as
/// `str::contains` with a string pattern answers it.
fn str_contains(s: &str, pat: &str) -> (r: bool)
    ensures
        r == contains_seq(s@, pat@),
{
    let sc = chars_of(s);
    let pc = chars_of(pat);
    if pc.len() == 0 {
        assert(pat@.len() == 0);
        assert(s@.subrange(0, 0 + pat@.len() as int) =~= pat@);
        return true;
    }
    if pc.len() > sc.len() {
        return false;
    }
    let last = sc.len() - pc.len();
    let mut i: usize = 0;
    while i <= last
        invariant
            sc@ == s@,
            pc@ == pat@,
            last == sc@.len() - pc@.len(),
            last < usize::MAX,
            i <= last + 1,
            forall|j: int| 0 <= j < i ==> #[trigger] s@.subrange(j, j + pat@.len()) != pat@,
        decreases last + 1 - i,
    {
        if occurs_at(&sc, &pc, i) {
            return true;
        }
        i = i + 1;
    }
    false
}

impl LogRecord {
    /// The index of the record's level.
    pub fn index_level(l: LogLevel) -> (i: u8)
        ensures
            i == level_index(l),
    {
        match l {
            LogLevel::Trace => 0,
            LogLevel::Debug => 1,
            LogLevel::Info => 2,
            LogLevel::Warn => 3,
            LogLevel::Error => 4,
        }
    }

    /// The name of a level.
    pub fn level_name(l: LogLevel) -> (name: &'static str)
        ensures
            name@ == level_name(l),
    {
        match l {
            LogLevel::Trace => {
                proof {
                    reveal_strlit("TRACE");
                }
                "TRACE"
            },
            LogLevel::Debug => {
                proof {
                    reveal_strlit("DEBUG");
                }
                "DEBUG"
            },
            LogLevel::Info => {
                proof {
                    reveal_strlit("INFO");
                }
                "INFO"
            },
            LogLevel::Warn => {
                proof {
                    reveal_strlit("WARN");
                }
                "WARN"
            },
            LogLevel::Error => {
                proof {
                    reveal_strlit("ERROR");
                }
                "ERROR"
            },
        }
    }

    /// The record's console line and its level index (which picks the
    /// line's color).
    pub fn format(&self) -> (r: (String, u32))
        ensures
            r.0@ == log_line(self.frame, level_name(self.level), self.target@, self.message@),
            r.1 == level_index(self.level),
    {
        let idx = Self::index_level(self.level);
        let s = format_log_line(self.frame, self.level, self.target.as_str(), self.message.as_str());
        (s, idx as u32)
    }
}

/// A record passes the console filter when its message or target contains
/// the lowercased filter text (compared in lowercase) and its level is at
/// least `min_level`.
pub open spec fn record_matches(r: LogRecord, filter_lc: Seq<char>, min_level: u8) -> bool {
    &&& (contains_seq(lowercase(r.message@), filter_lc) || contains_seq(
        lowercase(r.target@),
        filter_lc,
    ))
    &&& level_index(r.level) >= min_level
}

/// Whether `r` passes the filter whose lowercased text is `filter_lc`.
pub fn entry_matches(r: &LogRecord, filter_lc: &str, min_level: u8) -> (m: bool)
    ensures
        m == record_matches(*r, filter_lc@, min_level),
{
    let msg = to_lowercase(r.message.as_str());
    let target = to_lowercase(r.target.as_str());
    lowered_matches(msg.as_str(), target.as_str(), filter_lc, r.level, min_level)
}

/// The filter on a record whose message and target are already lowercased
/// (`msg_lc`, `target_lc`): one of them contains `filter_lc`, and the level
/// is at least `min_level`.
pub fn lowered_matches(msg_lc: &str, target_lc: &str, filter_lc: &str, level: LogLevel, min_level: u8) -> (m: bool)
    ensures
        m == ((contains_seq(msg_lc@, filter_lc@) || contains_seq(target_lc@, filter_lc@))
            && level_index(level) >= min_level),
{
    let found = str_contains(msg_lc, filter_lc) || str_contains(target_lc, filter_lc);
    let level_ok = LogRecord::index_level(level) >= min_level;
    found && level_ok
}

/// The last `n` items of `s` (all of them when there are fewer).
pub open spec fn last_n<T>(s: Seq<T>, n: nat) -> Seq<T> {
    if s.len() <= n {
        s
    } else {
        s.subrange(s.len() - n, s.len() as int)
    }
}

/// A console line by its text and level index.
pub open spec fn line_view(l: (String, u32)) -> (Seq<char>, u32) {
    (l.0@, l.1)
}

/// The console line of a record.
pub open spec fn record_line(r: LogRecord) -> (Seq<char>, u32) {
    (log_line(r.frame, level_name(r.level), r.target@, r.message@), level_index(r.level) as u32)
}

/// The lines of the records `lo..hi` of the log (record `k` at slot
/// `k % MAX_ENTRIES`) that pass the filter, in order.
pub open spec fn matched_lines(
    log: Seq<LogRecord>,
    lo: int,
    hi: int,
    filter_lc: Seq<char>,
    min_level: u8,
) -> Seq<(Seq<char>, u32)>
    decreases hi - lo,
{
    if hi <= lo {
        seq![]
    } else {
        let r = log[(hi - 1) % (MAX_ENTRIES as int)];
        matched_lines(log, lo, hi - 1, filter_lc, min_level) + if record_matches(
            r,
            filter_lc,
            min_level,
        ) {
            seq![record_line(r)]
        } else {
            seq![]
        }
    }
}

/// The console's window state: the filter, and a ring of the most recent
/// matching lines.
pub struct ConsoleUiState {
    pub filter_text: String,
    pub auto_scroll: bool,
    pub min_level: u8,
    pub filter_buf: Vec<(String, u32)>,
    pub filter_buf_head: usize,
    pub matches: usize,
    pub old_head: usize,
}

impl ConsoleUiState {
    /// The ring has its fixed size and its head follows the number of
    /// matches.
    pub open spec fn wf(&self) -> bool {
        &&& self.filter_buf@.len() == MAX_ENTRIES
        &&& self.filter_buf_head == self.matches % MAX_ENTRIES
    }

    /// The lines shown, oldest first: the last `MAX_ENTRIES` matches.
    pub open spec fn visible(&self) -> Seq<(Seq<char>, u32)> {
        let count = if self.matches < MAX_ENTRIES {
            self.matches as int
        } else {
            MAX_ENTRIES as int
        };
        let offset = if self.matches < MAX_ENTRIES {
            0
        } else {
            self.filter_buf_head as int
        };
        Seq::new(
            count as nat,
            |i: int| line_view(self.filter_buf@[(offset + i) % (MAX_ENTRIES as int)]),
        )
    }

    /// Forgets the matches; the next scan starts `MAX_ENTRIES` records
    /// before `head` (or at the first record).
    pub fn reset_matches(&mut self, head: usize)
        requires
            old(self).wf(),
        ensures
            final(self).wf(),
            final(self).visible() == Seq::<(Seq<char>, u32)>::empty(),
            final(self).matches == 0,
            final(self).old_head == if head >= MAX_ENTRIES {
                head - MAX_ENTRIES
            } else {
                0
            },
            final(self).filter_buf@ == old(self).filter_buf@,
            final(self).filter_text@ == old(self).filter_text@,
            final(self).min_level == old(self).min_level,
            final(self).auto_scroll == old(self).auto_scroll,
    {
        self.filter_buf_head = 0;
        self.old_head = head.saturating_sub(MAX_ENTRIES);
        self.matches = 0;
        assert(self.visible() =~= Seq::<(Seq<char>, u32)>::empty());
    }

    /// Keeps `line` as the newest match; the oldest line leaves once the
    /// ring is full.
    #[verifier::rlimit(30)]
    pub fn push_match(&mut self, line: (String, u32))
        requires
            old(self).wf(),
            old(self).matches < usize::MAX,
        ensures
            final(self).wf(),
            final(self).visible() == last_n(old(self).visible().push(line_view(line)), MAX_ENTRIES as nat),
            final(self).matches == old(self).matches + 1,
            final(self).old_head == old(self).old_head,
            final(self).filter_text@ == old(self).filter_text@,
            final(self).min_level == old(self).min_level,
            final(self).auto_scroll == old(self).auto_scroll,
    {
        let ghost v = self.visible();
        let ghost lv = line_view(line);
        let h = self.filter_buf_head;
        self.filter_buf.set(h, line);
        self.filter_buf_head = (h + 1) % MAX_ENTRIES;
        self.matches = self.matches + 1;
        proof {
            let cap = MAX_ENTRIES as int;
            let w = v.push(lv);
            if old(self).matches < MAX_ENTRIES {
                assert(h == old(self).matches);
                assert(self.visible() =~= w) by {
                    assert forall|i: int| 0 <= i < w.len() implies #[trigger] self.visible()[i] == w[i] by {
                        if self.matches < MAX_ENTRIES {
                            assert(i % cap == i);
                        } else {
                            assert(self.filter_buf_head == 0);
                            assert((0 + i) % cap == i);
                        }
                        if i < v.len() {
                            assert(self.filter_buf@[i] == old(self).filter_buf@[i]);
                        }
                    }
                }
            } else {
                assert(last_n(w, MAX_ENTRIES as nat) =~= w.subrange(1, w.len() as int));
                assert(self.visible() =~= w.subrange(1, w.len() as int)) by {
                    assert forall|i: int| 0 <= i < cap implies #[trigger] self.visible()[i] == w.subrange(
                        1,
                        w.len() as int,
                    )[i] by {
                        let j = (self.filter_buf_head + i) % cap;
                        if i < cap - 1 {
                            assert(j == (h + 1 + i) % cap);
                            assert(j != h);
                            assert(v[i + 1] == line_view(old(self).filter_buf@[(h + (i + 1)) % cap]));
                        } else {
                            assert(j == h);
                        }
                    }
                }
            }
        }
    }
}

/// Keeping the last `n` lines and then adding one keeps the same lines as
/// adding first: the console never loses one of the newest lines.
pub proof fn lemma_last_n_push<T>(s: Seq<T>, x: T, n: nat)
    requires
        n >= 1,
    ensures
        last_n(last_n(s, n).push(x), n) == last_n(s.push(x), n),
{
    assert(last_n(last_n(s, n).push(x), n) =~= last_n(s.push(x), n));
}

impl ConsoleUiState {
    /// A fresh console: no matches, auto-scroll on, minimum level `INFO`.
    pub fn new() -> (r: Self)
        ensures
            r.wf(),
            r.matches == 0,
            r.old_head == 0,
            r.visible() == Seq::<(Seq<char>, u32)>::empty(),
            r.filter_text@ == Seq::<char>::empty(),
            r.auto_scroll,
            r.min_level == 2,
            forall|i: int|
                0 <= i < MAX_ENTRIES ==> line_view(#[trigger] r.filter_buf@[i]) == (Seq::<char>::empty(), 0u32),
    {
        let mut buf: Vec<(String, u32)> = Vec::new();
        let mut i: usize = 0;
        while i < MAX_ENTRIES
            invariant
                i <= MAX_ENTRIES,
                buf@.len() == i,
                forall|k: int| 0 <= k < i ==> line_view(#[trigger] buf@[k]) == (Seq::<char>::empty(), 0u32),
            decreases MAX_ENTRIES - i,
        {
            buf.push((String::new(), 0));
            i = i + 1;
        }
        let r = ConsoleUiState {
            filter_text: String::new(),
            auto_scroll: true,
            min_level: 2,
            filter_buf: buf,
            filter_buf_head: 0,
            matches: 0,
            old_head: 0,
        };
        assert(r.visible() =~= Seq::<(Seq<char>, u32)>::empty());
        r
    }

    /// The number of lines shown.
    pub fn visible_count(&self) -> (n: usize)
        requires
            self.wf(),
        ensures
            n == self.visible().len(),
    {
        if self.matches < MAX_ENTRIES {
            self.matches
        } else {
            MAX_ENTRIES
        }
    }

    /// The `i`-th line shown, oldest first.
    pub fn visible_line(&self, i: usize) -> (l: &(String, u32))
        requires
            self.wf(),
            i < self.visible().len(),
        ensures
            line_view(*l) == self.visible()[i as int],
    {
        let offset = if self.matches < MAX_ENTRIES {
            0
        } else {
            self.filter_buf_head
        };
        &self.filter_buf[(offset + i) % MAX_ENTRIES]
    }

    /// One frame of the console: after a change of the filter or of the
    /// minimum level the matches start over; then the records from the
    /// last scanned one up to `head` (record `k` in slot `k %
    /// MAX_ENTRIES` of `log`) are filtered, and the lines of those that
    /// pass are kept.
    pub fn refresh(&mut self, log: &Vec<LogRecord>, head: usize, filter_changed: bool, min_level_changed: bool)
        requires
            old(self).wf(),
            log@.len() == MAX_ENTRIES,
            filter_changed || min_level_changed || head <= old(self).old_head || old(self).matches + (
            head - old(self).old_head) <= usize::MAX,
        ensures
            final(self).wf(),
            ({
                let changed = filter_changed || min_level_changed;
                let base = if changed {
                    Seq::<(Seq<char>, u32)>::empty()
                } else {
                    old(self).visible()
                };
                let lo = if !changed {
                    old(self).old_head as int
                } else if head >= MAX_ENTRIES {
                    head - MAX_ENTRIES
                } else {
                    0
                };
                let lines = matched_lines(
                    log@,
                    lo,
                    head as int,
                    lowercase(old(self).filter_text@),
                    old(self).min_level,
                );
                &&& final(self).visible() == last_n(base + lines, MAX_ENTRIES as nat)
                &&& final(self).matches == (if changed {
                    0
                } else {
                    old(self).matches as int
                }) + lines.len()
            }),
            final(self).old_head == head,
            final(self).filter_text@ == old(self).filter_text@,
            final(self).min_level == old(self).min_level,
            final(self).auto_scroll == old(self).auto_scroll,
    {
        if filter_changed || min_level_changed {
            self.reset_matches(head);
        }
        let filter_lc = to_lowercase(self.filter_text.as_str());
        let min_level = self.min_level;
        let ghost base = self.visible();
        let ghost base_matches = self.matches as int;
        let lo = self.old_head;
        proof {
            assert(base.len() <= MAX_ENTRIES);
            assert(last_n(base + matched_lines(log@, lo as int, lo as int, filter_lc@, min_level), MAX_ENTRIES as nat) =~= base);
        }
        let mut k = lo;
        while k < head
            invariant
                self.wf(),
                log@.len() == MAX_ENTRIES,
                lo <= k <= head || (k == lo && head <= lo),
                filter_lc@ == lowercase(self.filter_text@),
                min_level == self.min_level,
                self.filter_text@ == old(self).filter_text@,
                self.min_level == old(self).min_level,
                self.auto_scroll == old(self).auto_scroll,
                self.old_head == lo,
                base_matches + (head - lo) <= usize::MAX || head <= lo,
                self.visible() == last_n(base + matched_lines(log@, lo as int, k as int, filter_lc@, min_level), MAX_ENTRIES as nat),
                self.matches == base_matches + matched_lines(log@, lo as int, k as int, filter_lc@, min_level).len(),
            decreases head - k,
        {
            let ghost before = matched_lines(log@, lo as int, k as int, filter_lc@, min_level);
            let idx = k % MAX_ENTRIES;
            proof {
                assert(matched_lines(log@, lo as int, k + 1, filter_lc@, min_level).len() <= before.len() + 1);
                lemma_matched_len(log@, lo as int, k as int, filter_lc@, min_level);
            }
            if entry_matches(&log[idx], filter_lc.as_str(), min_level) {
                let line = log[idx].format();
                proof {
                    lemma_last_n_push(base + before, line_view(line), MAX_ENTRIES as nat);
                    assert((base + before).push(line_view(line)) =~= base + matched_lines(log@, lo as int, k + 1, filter_lc@, min_level));
                }
                self.push_match(line);
            } else {
                proof {
                    assert(before =~= matched_lines(log@, lo as int, k + 1, filter_lc@, min_level));
                }
            }
            k = k + 1;
        }
        self.old_head = head;
        proof {
            if head <= lo {
                assert(matched_lines(log@, lo as int, head as int, filter_lc@, min_level) =~= seq![]);
                assert(matched_lines(log@, lo as int, k as int, filter_lc@, min_level) =~= seq![]);
            }
        }
    }
}

/// At most one line per record scanned.
proof fn lemma_matched_len(log: Seq<LogRecord>, lo: int, hi: int, filter_lc: Seq<char>, min_level: u8)
    requires
        lo <= hi,
    ensures
        matched_lines(log, lo, hi, filter_lc, min_level).len() <= hi - lo,
    decreases hi - lo,
{
    if lo < hi {
        lemma_matched_len(log, lo, hi - 1, filter_lc, min_level);
    }
}

} // verus!
