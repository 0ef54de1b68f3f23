//! Reads the edited buffer back into tasks.
//!
//! Buffer structure:
//!   `## ProjectName <!-- project:ID -->`   H2: project
//!   `### SectionName <!-- section:ID -->`  H3: section
//!   `- [ ] Task <!-- id:ID -->`            task
//!   `    - [ ] Subtask <!-- id:ID -->`     four spaces of indent per level
use crate::models::{btasks, clone_opt, ov, strs, BufferTask, BufferTaskV, Task};
use crate::outline::{indent, task_line, Style};
use crate::text::{
    all_ws, contains, dec, find, find_chars_from, find_from, is_digit, is_whitespace, is_ws,
    lemma_find_from_at, lemma_not_contains, lemma_rfind_upto_at, lemma_rfind_upto_none,
    lemma_trim_ends, lemma_trim_unchanged, matches_at, occurs_at, push_usize, rfind, rfind_chars, run_of, skip_ws,
    skip_ws_back_sub, skip_ws_sub, starts_with, starts_with_at, to_chars, trim, trim_bounds,
    trim_end, trim_start, ws_back_from, ws_run_from,
};
use vstd::prelude::*;
use vstd::string::*;

verus! {

/// Marker that prefixes a due date in the buffer (e.g. `due:2026-04-20`).
pub const DUE_MARKER: &'static str = "due:";

pub open spec fn due_pat() -> Seq<char> {
    seq!['d', 'u', 'e', ':']
}

pub open spec fn open_pat() -> Seq<char> {
    seq!['<', '!', '-', '-']
}

pub open spec fn close_pat() -> Seq<char> {
    seq!['-', '-', '>']
}

pub open spec fn h2_pat() -> Seq<char> {
    seq!['#', '#', ' ']
}

pub open spec fn h3_pat() -> Seq<char> {
    seq!['#', '#', '#', ' ']
}

pub open spec fn h4_pat() -> Seq<char> {
    seq!['#', '#', '#', '#', ' ']
}

pub open spec fn box_pat(mark: char) -> Seq<char> {
    seq!['-', ' ', '[', mark, ']', ' ']
}

pub open spec fn project_key() -> Seq<char> {
    seq!['p', 'r', 'o', 'j', 'e', 'c', 't', ':']
}

pub open spec fn section_key() -> Seq<char> {
    seq!['s', 'e', 'c', 't', 'i', 'o', 'n', ':']
}

/// `s` starts with `DDDD-DD-DD`.
pub open spec fn date_prefix_ok(s: Seq<char>) -> bool {
    &&& s.len() >= 10
    &&& is_digit(s[0]) && is_digit(s[1]) && is_digit(s[2]) && is_digit(s[3])
    &&& s[4] == '-'
    &&& is_digit(s[5]) && is_digit(s[6])
    &&& s[7] == '-'
    &&& is_digit(s[8]) && is_digit(s[9])
}

/// `s` starts with `DD:DD`.
pub open spec fn time_prefix_ok(s: Seq<char>) -> bool {
    &&& s.len() >= 5
    &&& is_digit(s[0]) && is_digit(s[1])
    &&& s[2] == ':'
    &&& is_digit(s[3]) && is_digit(s[4])
}

/// Splits a trailing `due:YYYY-MM-DD` or `due:YYYY-MM-DD HH:MM` (one optional space, or more,
/// after the marker) off `s`, at the last `due:`. Returns the content before the marker with
/// trailing whitespace removed, and the date; or `s` unchanged and `None` when there is no
/// marker or what follows it is not such a date.
pub open spec fn extract_due_spec(s: Seq<char>) -> (Seq<char>, Option<Seq<char>>) {
    match rfind(s, due_pat()) {
        None => (s, None),
        Some(p) => {
            let after = s.skip(p + 4);
            let date = after.skip(run_of(after, ' ', 0));
            let rest = date.skip(10);
            let clean = trim_end(s.take(p));
            if !date_prefix_ok(date) {
                (s, None)
            } else if all_ws(rest) {
                (clean, Some(date.take(10)))
            } else if rest[0] == ' ' && time_prefix_ok(rest.skip(1)) && all_ws(rest.skip(6)) {
                (clean, Some(date.take(10) + seq![' '] + rest.skip(1).take(5)))
            } else {
                (s, None)
            }
        },
    }
}

/// The comment delimiters around `open` in `s` leave a body (no `<!-->` / `<!--->`).
pub open spec fn comment_closes_after(s: Seq<char>, open: Option<int>) -> bool {
    match open {
        Some(st) => match find_from(s, close_pat(), st) {
            Some(e) => e >= st + 4,
            None => true,
        },
        None => true,
    }
}

/// The first token (whitespace-separated) of `s`.
pub open spec fn first_token(s: Seq<char>) -> Option<Seq<char>> {
    let a = ws_run_from(s, 0);
    if a >= s.len() {
        None
    } else {
        Some(s.subrange(a, nonws_run_from(s, a)))
    }
}

/// Index of the first whitespace character at or after `i` (or `s.len()`).
pub open spec fn nonws_run_from(s: Seq<char>, i: int) -> int
    decreases s.len() - i,
{
    if 0 <= i < s.len() && !is_ws(s[i]) {
        nonws_run_from(s, i + 1)
    } else {
        i
    }
}

/// The value of the first `<!-- key VALUE -->` comment of `line`: its first word after `key`.
pub open spec fn comment_value_spec(line: Seq<char>, key: Seq<char>) -> Option<Seq<char>> {
    match find(line, open_pat()) {
        None => None,
        Some(st) => match find_from(line, close_pat(), st) {
            None => None,
            Some(e) => {
                let comment = trim(line.subrange(st + 4, e));
                if starts_with(comment, key) {
                    first_token(trim(comment.skip(key.len() as int)))
                } else {
                    None
                }
            },
        },
    }
}

/// Splits the last `<!-- ... -->` comment off `s`: the text before it without trailing
/// whitespace, and the trimmed part of the comment after its first `:` (if any).
pub open spec fn strip_comment_spec(s: Seq<char>) -> (Seq<char>, Option<Seq<char>>) {
    match rfind(s, open_pat()) {
        None => (s, None),
        Some(st) => match find_from(s, close_pat(), st) {
            None => (s, None),
            Some(e) => {
                let comment = trim(s.subrange(st + 4, e));
                let value = match find(comment, seq![':']) {
                    Some(c) => Some(trim(comment.skip(c + 1))),
                    None => None,
                };
                (trim_end(s.take(st)), value)
            },
        },
    }
}

pub open spec fn is_h2_line(line: Seq<char>) -> bool {
    starts_with(line, h2_pat()) && !starts_with(line, h3_pat())
}

pub open spec fn is_h3_line(line: Seq<char>) -> bool {
    starts_with(line, h3_pat()) && !starts_with(line, h4_pat())
}

pub open spec fn is_checked_box(t: Seq<char>) -> bool {
    starts_with(t, box_pat('x')) || starts_with(t, box_pat('X'))
}

/// A line the parser reads as a task: not a heading, and a checkbox after the indent.
pub open spec fn is_task_line(line: Seq<char>) -> bool {
    let t = trim_start(line);
    &&& !is_h2_line(line)
    &&& !is_h3_line(line)
    &&& !starts_with(line, h4_pat())
    &&& (starts_with(t, box_pat(' ')) || is_checked_box(t))
}

/// The parser can slice every comment of `line` it looks at.
pub open spec fn line_readable(line: Seq<char>) -> bool {
    &&& (is_h2_line(line) || is_h3_line(line)) ==> comment_closes_after(line, find(line, open_pat()))
    &&& is_task_line(line) ==> {
        let after = trim_start(line).skip(6);
        comment_closes_after(after, rfind(after, open_pat()))
    }
}

pub open spec fn line_msg(n: nat, text: Seq<char>) -> Seq<char> {
    "Line "@ + dec(n) + text
}

pub open spec fn msg_no_project_id(n: nat) -> Seq<char> {
    line_msg(n, ": H2 has no <!-- project:ID --> — tasks here won't be synced"@)
}

pub open spec fn msg_no_section_id(n: nat) -> Seq<char> {
    line_msg(n, ": H3 has no <!-- section:ID --> — tasks here won't be synced"@)
}

pub open spec fn msg_bad_due(n: nat) -> Seq<char> {
    line_msg(n, ": 'due:' found but date is unparseable — ignoring due date"@)
}

pub open spec fn msg_empty(n: nat) -> Seq<char> {
    line_msg(n, ": empty task content — skipped"@)
}

pub open spec fn msg_no_context(n: nat, content: Seq<char>) -> Seq<char> {
    line_msg(n, ": task '"@ + content + "' has no project context — skipped"@)
}

pub open spec fn msg_orphan(n: nat, content: Seq<char>) -> Seq<char> {
    line_msg(n, ": subtask '"@ + content + "' has no resolvable parent — will be a root task"@)
}

/// What the first pass over the lines has gathered.
pub struct Scan {
    pub project: Option<Seq<char>>,
    pub section: Option<Seq<char>>,
    pub tasks: Seq<BufferTaskV>,
    pub warnings: Seq<Seq<char>>,
}

/// The effect of line `line` (numbered `n`) on the scan so far.
pub open spec fn scan_line(st: Scan, line: Seq<char>, n: nat) -> Scan {
    if is_h2_line(line) {
        let p = comment_value_spec(line, project_key());
        Scan {
            project: p,
            section: None,
            warnings: if p is None {
                st.warnings.push(msg_no_project_id(n))
            } else {
                st.warnings
            },
            ..st
        }
    } else if is_h3_line(line) {
        let s = comment_value_spec(line, section_key());
        Scan {
            section: s,
            warnings: if s is None {
                st.warnings.push(msg_no_section_id(n))
            } else {
                st.warnings
            },
            ..st
        }
    } else if !is_task_line(line) {
        st
    } else {
        let t = trim_start(line);
        let (raw, id) = strip_comment_spec(t.skip(6));
        let ct = trim(raw);
        let (clean, due) = extract_due_spec(ct);
        let w = if contains(ct, due_pat()) && due is None {
            st.warnings.push(msg_bad_due(n))
        } else {
            st.warnings
        };
        let content = trim(clean);
        if content.len() == 0 {
            Scan { warnings: w.push(msg_empty(n)), ..st }
        } else if st.project is None {
            Scan { warnings: w.push(msg_no_context(n, content)), ..st }
        } else {
            Scan {
                tasks: st.tasks.push(
                    BufferTaskV {
                        id: id,
                        content: content,
                        checked: is_checked_box(t),
                        indent_level: (run_of(line, ' ', 0) / 4) as nat,
                        project_id: st.project,
                        section_id: st.section,
                        parent_id: None,
                        line_num: n,
                        due: due,
                    },
                ),
                warnings: w,
                ..st
            }
        }
    }
}

/// The scan after the first `k` lines (lines are numbered from 1).
pub open spec fn scan_lines(lines: Seq<Seq<char>>, k: int) -> Scan
    decreases k,
{
    if k <= 0 {
        Scan { project: None, section: None, tasks: Seq::empty(), warnings: Seq::empty() }
    } else {
        scan_line(scan_lines(lines, k - 1), lines[k - 1], k as nat)
    }
}

/// The last task before index `j` nested at most `m` deep.
pub open spec fn last_at_most(ts: Seq<BufferTaskV>, j: int, m: nat) -> Option<int>
    decreases j,
{
    if j <= 0 {
        None
    } else if ts[j - 1].indent_level <= m {
        Some(j - 1)
    } else {
        last_at_most(ts, j - 1, m)
    }
}

/// The parent of task `j`: for a task `L > 0` levels deep, the id of the closest task
/// before it at depth `L - 1`, unless a shallower task comes between them.
pub open spec fn parent_of(ts: Seq<BufferTaskV>, j: int) -> Option<Seq<char>> {
    let l = ts[j].indent_level;
    if l == 0 {
        None
    } else {
        match last_at_most(ts, j, (l - 1) as nat) {
            Some(k) => if ts[k].indent_level == l - 1 {
                ts[k].id
            } else {
                None
            },
            None => None,
        }
    }
}

pub open spec fn with_parent(t: BufferTaskV, p: Option<Seq<char>>) -> BufferTaskV {
    BufferTaskV { parent_id: p, ..t }
}

/// The tasks with their parents resolved.
pub open spec fn resolve_parents(ts: Seq<BufferTaskV>) -> Seq<BufferTaskV> {
    Seq::new(ts.len(), |j: int| with_parent(ts[j], parent_of(ts, j)))
}

/// One warning per nested task among the first `k` whose parent cannot be resolved.
pub open spec fn orphan_warnings(ts: Seq<BufferTaskV>, k: int) -> Seq<Seq<char>>
    decreases k,
{
    if k <= 0 {
        Seq::empty()
    } else {
        let j = k - 1;
        let prev = orphan_warnings(ts, j);
        if ts[j].indent_level > 0 && parent_of(ts, j) is None {
            prev.push(msg_orphan(ts[j].line_num, ts[j].content))
        } else {
            prev
        }
    }
}

/// The tasks of the buffer `lines`.
pub open spec fn parsed_tasks(lines: Seq<Seq<char>>) -> Seq<BufferTaskV> {
    resolve_parents(scan_lines(lines, lines.len() as int).tasks)
}

/// The warnings of the buffer `lines`: those of the line scan, then those of unresolved parents.
pub open spec fn parsed_warnings(lines: Seq<Seq<char>>) -> Seq<Seq<char>> {
    let sc = scan_lines(lines, lines.len() as int);
    sc.warnings + orphan_warnings(sc.tasks, sc.tasks.len() as int)
}


/// `s[a..b]` as an owned string.
fn slice_string(s: &str, a: usize, b: usize) -> (r: String)
    requires
        a <= b <= s@.len(),
    ensures
        r@ == s@.subrange(a as int, b as int),
{
    String::from_str(s.substring_char(a, b))
}

fn digit_at(c: &[char], i: usize) -> (r: bool)
    requires
        i < c@.len(),
    ensures
        r == is_digit(c@[i as int]),
{
    '0' <= c[i] && c[i] <= '9'
}

/// Does `c[q..]` start with `DDDD-DD-DD`?
fn date_ok_at(c: &[char], q: usize) -> (r: bool)
    requires
        q <= c@.len(),
    ensures
        r == date_prefix_ok(c@.skip(q as int)),
{
    let ghost d = c@.skip(q as int);
    if c.len() - q < 10 {
        return false;
    }
    assert(forall|k: int| 0 <= k < 10 ==> #[trigger] d[k] == c@[q + k]);
    digit_at(c, q) && digit_at(c, q + 1) && digit_at(c, q + 2) && digit_at(c, q + 3) && c[q + 4]
        == '-' && digit_at(c, q + 5) && digit_at(c, q + 6) && c[q + 7] == '-' && digit_at(c, q + 8)
        && digit_at(c, q + 9)
}

/// Does `c[q..]` start with `DD:DD`?
fn time_ok_at(c: &[char], q: usize) -> (r: bool)
    requires
        q <= c@.len(),
    ensures
        r == time_prefix_ok(c@.skip(q as int)),
{
    let ghost d = c@.skip(q as int);
    if c.len() - q < 5 {
        return false;
    }
    assert(forall|k: int| 0 <= k < 5 ==> #[trigger] d[k] == c@[q + k]);
    digit_at(c, q) && digit_at(c, q + 1) && c[q + 2] == ':' && digit_at(c, q + 3) && digit_at(
        c,
        q + 4,
    )
}

/// Is `c[q..]` all whitespace?
pub fn all_ws_from(c: &[char], q: usize) -> (r: bool)
    requires
        q <= c@.len(),
    ensures
        r == all_ws(c@.skip(q as int)),
{
    let mut i = q;
    while i < c.len()
        invariant
            q <= i <= c@.len(),
            forall|k: int| q <= k < i ==> is_ws(#[trigger] c@[k]),
        decreases c@.len() - i,
    {
        if !is_whitespace(c[i]) {
            assert(c@.skip(q as int)[i - q] == c@[i as int]);
            return false;
        }
        i = i + 1;
    }
    assert forall|k: int| 0 <= k < c@.skip(q as int).len() implies #[trigger] is_ws(
        c@.skip(q as int)[k],
    ) by {
        assert(c@.skip(q as int)[k] == c@[q + k]);
    }
    true
}

/// Returns true if `s` starts with `DDDD-DD-DD` where D is a decimal digit.
fn is_valid_date_prefix(s: &str) -> (r: bool)
    ensures
        r == date_prefix_ok(s@),
{
    let c = to_chars(s);
    assert(c@.skip(0) =~= c@);
    date_ok_at(c.as_slice(), 0)
}

/// Returns true if `s` starts with `HH:MM` (digits and a colon).
fn is_valid_time_prefix(s: &str) -> (r: bool)
    ensures
        r == time_prefix_ok(s@),
{
    let c = to_chars(s);
    assert(c@.skip(0) =~= c@);
    time_ok_at(c.as_slice(), 0)
}

/// Number of leading spaces of `line`.
fn leading_spaces(line: &str) -> (r: usize)
    ensures
        r == run_of(line@, ' ', 0),
{
    let c = to_chars(line);
    let mut i: usize = 0;
    while i < c.len() && c[i] == ' '
        invariant
            i <= c@.len(),
            c@ == line@,
            run_of(line@, ' ', 0) == run_of(line@, ' ', i as int),
        decreases c@.len() - i,
    {
        i = i + 1;
    }
    i
}

/// Extract a `due:` date from the end of a content string.
///
/// Looks for the last `due:` in `s` and reads what follows (after any spaces) as
/// `YYYY-MM-DD` or `YYYY-MM-DD HH:MM`. With such a date, returns the content before the
/// marker (trailing whitespace removed) and the date; otherwise `s` unchanged and `None`
/// (the caller warns when a marker is present).
fn extract_due(s: &str) -> (r: (String, Option<String>))
    ensures
        (r.0@, ov(r.1)) == extract_due_spec(s@),
{
    let c = to_chars(s);
    let pat = vec!['d', 'u', 'e', ':'];
    assert(pat@ =~= due_pat());
    let p = match rfind_chars(c.as_slice(), pat.as_slice()) {
        None => {
            return (String::from_str(s), None);
        },
        Some(p) => p,
    };
    assert(p + 4 <= c.len());
    let ghost after = c@.skip(p + 4);
    let mut q = p + 4;
    while q < c.len() && c[q] == ' '
        invariant
            p + 4 <= q <= c@.len(),
            after == c@.skip(p + 4),
            run_of(after, ' ', 0) == run_of(after, ' ', q - (p + 4)),
        decreases c@.len() - q,
    {
        assert(after[q - (p + 4)] == c@[q as int]);
        q = q + 1;
    }
    proof {
        if q < c@.len() {
            assert(after[q - (p + 4)] == c@[q as int]);
        }
        assert(after.skip(run_of(after, ' ', 0)) =~= c@.skip(q as int));
    }
    let ghost date = c@.skip(q as int);
    if !date_ok_at(c.as_slice(), q) {
        return (String::from_str(s), None);
    }
    let j = skip_ws_back_sub(c.as_slice(), 0, p);
    assert(c@.subrange(0, p as int) =~= c@.take(p as int));
    let clean = slice_string(s, 0, j);
    assert(clean@ =~= trim_end(s@.take(p as int)));
    assert(date.skip(10) =~= c@.skip(q + 10));
    assert(date.take(10) =~= c@.subrange(q as int, q + 10));
    if all_ws_from(c.as_slice(), q + 10) {
        let due = slice_string(s, q, q + 10);
        return (clean, Some(due));
    }
    if c[q + 10] == ' ' && time_ok_at(c.as_slice(), q + 11) && all_ws_from(c.as_slice(), q + 16) {
        assert(date.skip(10).skip(1) =~= c@.skip(q + 11));
        assert(date.skip(10).skip(6) =~= c@.skip(q + 16));
        assert(date.skip(10).skip(1).take(5) =~= c@.subrange(q + 11, q + 16));
        let mut due = slice_string(s, q, q + 10);
        let sep = " ";
        proof {
            reveal_strlit(" ");
        }
        due.append(sep);
        let time = s.substring_char(q + 11, q + 16);
        due.append(time);
        assert(due@ =~= date.take(10) + seq![' '] + date.skip(10).skip(1).take(5));
        return (clean, Some(due));
    }
    proof {
        if date.skip(10)[0] == ' ' && time_prefix_ok(date.skip(10).skip(1)) && all_ws(date.skip(10).skip(6)) {
            assert(date.skip(10).skip(1) =~= c@.skip(q + 11));
            assert(date.skip(10).skip(6) =~= c@.skip(q + 16));
        }
    }
    (String::from_str(s), None)
}


/// Does `c[a..b]` start with `p`?
fn starts_with_within(c: &[char], p: &[char], a: usize, b: usize) -> (r: bool)
    requires
        a <= b <= c@.len(),
    ensures
        r == starts_with(c@.subrange(a as int, b as int), p@),
{
    let ghost t = c@.subrange(a as int, b as int);
    if p.len() > b - a {
        return false;
    }
    let r = matches_at(c, p, a);
    assert(t.subrange(0, p@.len() as int) =~= c@.subrange(a as int, a + p@.len()));
    r
}

/// Bounds of the first whitespace-separated word of `c[x..y]`.
fn first_token_bounds(c: &[char], x: usize, y: usize) -> (r: Option<(usize, usize)>)
    requires
        x <= y <= c@.len(),
    ensures
        match r {
            Some((u, v)) => x <= u <= v <= y && first_token(c@.subrange(x as int, y as int)) == Some(
                c@.subrange(u as int, v as int),
            ),
            None => first_token(c@.subrange(x as int, y as int)) is None,
        },
{
    let ghost t = c@.subrange(x as int, y as int);
    let u = skip_ws_sub(c, x, y);
    if u == y {
        return None;
    }
    let mut v = u;
    while v < y && !is_whitespace(c[v])
        invariant
            x <= u <= v <= y <= c@.len(),
            t == c@.subrange(x as int, y as int),
            nonws_run_from(t, u - x) == nonws_run_from(t, v - x),
        decreases y - v,
    {
        v = v + 1;
    }
    assert(t.subrange(u - x, v - x) =~= c@.subrange(u as int, v as int));
    Some((u, v))
}

/// Position of the first `ch` in `c[a..b]`.
fn find_char_within(c: &[char], ch: char, a: usize, b: usize) -> (r: Option<usize>)
    requires
        a <= b <= c@.len(),
    ensures
        match r {
            Some(k) => a <= k < b && find(c@.subrange(a as int, b as int), seq![ch]) == Some(k - a),
            None => find(c@.subrange(a as int, b as int), seq![ch]) is None,
        },
{
    let ghost t = c@.subrange(a as int, b as int);
    let mut k = a;
    while k < b
        invariant
            a <= k <= b <= c@.len(),
            t == c@.subrange(a as int, b as int),
            find(t, seq![ch]) == find_from(t, seq![ch], k - a),
        decreases b - k,
    {
        assert(t.subrange(k - a, k - a + 1) =~= seq![c@[k as int]]);
        if c[k] == ch {
            return Some(k);
        }
        assert(!occurs_at(t, seq![ch], k - a)) by {
            assert(t.subrange(k - a, k - a + 1)[0] != seq![ch][0]);
        }
        k = k + 1;
    }
    None
}

/// The value of the first `<!-- key VALUE -->` comment of `line`.
fn extract_comment_value(line: &str, key: &str) -> (r: Option<String>)
    requires
        comment_closes_after(line@, find(line@, open_pat())),
    ensures
        ov(r) == comment_value_spec(line@, key@),
{
    let c = to_chars(line);
    let open = vec!['<', '!', '-', '-'];
    let close = vec!['-', '-', '>'];
    assert(open@ =~= open_pat());
    assert(close@ =~= close_pat());
    let st = match find_chars_from(c.as_slice(), open.as_slice(), 0) {
        Some(st) => st,
        None => {
            return None;
        },
    };
    let e = match find_chars_from(c.as_slice(), close.as_slice(), st) {
        Some(e) => e,
        None => {
            return None;
        },
    };
    let (a, b) = trim_bounds(c.as_slice(), st + 4, e);
    let k = to_chars(key);
    if !starts_with_within(c.as_slice(), k.as_slice(), a, b) {
        return None;
    }
    assert(k@.len() <= b - a) by {
        assert(occurs_at(c@.subrange(a as int, b as int), k@, 0));
    }
    let (x, y) = trim_bounds(c.as_slice(), a + k.len(), b);
    assert(c@.subrange(a as int, b as int).skip(k@.len() as int) =~= c@.subrange(
        a + k@.len(),
        b as int,
    ));
    match first_token_bounds(c.as_slice(), x, y) {
        Some((u, v)) => Some(slice_string(line, u, v)),
        None => None,
    }
}

/// Strip the last `<!-- ... -->` comment: returns the text before it and the comment's value.
fn strip_comment(line: &str) -> (r: (&str, Option<String>))
    requires
        comment_closes_after(line@, rfind(line@, open_pat())),
    ensures
        (r.0@, ov(r.1)) == strip_comment_spec(line@),
{
    let c = to_chars(line);
    let open = vec!['<', '!', '-', '-'];
    let close = vec!['-', '-', '>'];
    assert(open@ =~= open_pat());
    assert(close@ =~= close_pat());
    let st = match rfind_chars(c.as_slice(), open.as_slice()) {
        Some(st) => st,
        None => {
            return (line, None);
        },
    };
    let e = match find_chars_from(c.as_slice(), close.as_slice(), st) {
        Some(e) => e,
        None => {
            return (line, None);
        },
    };
    let (a, b) = trim_bounds(c.as_slice(), st + 4, e);
    let value = match find_char_within(c.as_slice(), ':', a, b) {
        Some(k) => {
            let (x, y) = trim_bounds(c.as_slice(), k + 1, b);
            assert(c@.subrange(a as int, b as int).skip(k - a + 1) =~= c@.subrange(
                k + 1,
                b as int,
            ));
            Some(slice_string(line, x, y))
        },
        None => None,
    };
    let j = skip_ws_back_sub(c.as_slice(), 0, st);
    assert(c@.subrange(0, st as int) =~= c@.take(st as int));
    let text = line.substring_char(0, j);
    assert(text@ =~= trim_end(line@.take(st as int)));
    (text, value)
}


/// The slot for depth `m` after the first `j` tasks: present when the closest task at most
/// `m` deep sits exactly at depth `m`, holding its id.
pub open spec fn slot(ts: Seq<BufferTaskV>, j: int, m: nat) -> Option<Option<Seq<char>>> {
    match last_at_most(ts, j, m) {
        Some(k) => if ts[k].indent_level == m {
            Some(ts[k].id)
        } else {
            None
        },
        None => None,
    }
}

proof fn lemma_last_at_most_prefix(ts: Seq<BufferTaskV>, x: BufferTaskV, j: int, m: nat)
    requires
        j <= ts.len(),
    ensures
        last_at_most(ts.push(x), j, m) == last_at_most(ts, j, m),
    decreases j,
{
    if j > 0 {
        assert(ts.push(x)[j - 1] == ts[j - 1]);
        lemma_last_at_most_prefix(ts, x, j - 1, m);
    }
}

proof fn lemma_last_at_most_in_range(ts: Seq<BufferTaskV>, j: int, m: nat)
    ensures
        last_at_most(ts, j, m) matches Some(k) ==> 0 <= k < j && ts[k].indent_level <= m,
    decreases j,
{
    if j > 0 {
        lemma_last_at_most_in_range(ts, j - 1, m);
    }
}

proof fn lemma_parent_prefix(ts: Seq<BufferTaskV>, x: BufferTaskV, j: int)
    requires
        0 <= j < ts.len(),
    ensures
        parent_of(ts.push(x), j) == parent_of(ts, j),
{
    let l = ts[j].indent_level;
    assert(ts.push(x)[j] == ts[j]);
    if l > 0 {
        lemma_last_at_most_prefix(ts, x, j, (l - 1) as nat);
        lemma_last_at_most_in_range(ts, j, (l - 1) as nat);
        if let Some(k) = last_at_most(ts, j, (l - 1) as nat) {
            assert(ts.push(x)[k] == ts[k]);
        }
    }
}

proof fn lemma_orphans_prefix(ts: Seq<BufferTaskV>, x: BufferTaskV, k: int)
    requires
        k <= ts.len(),
    ensures
        orphan_warnings(ts.push(x), k) == orphan_warnings(ts, k),
    decreases k,
{
    if k > 0 {
        lemma_orphans_prefix(ts, x, k - 1);
        lemma_parent_prefix(ts, x, k - 1);
        assert(ts.push(x)[k - 1] == ts[k - 1]);
    }
}

proof fn lemma_resolve_push(ts: Seq<BufferTaskV>, x: BufferTaskV)
    ensures
        resolve_parents(ts.push(x)) =~= resolve_parents(ts).push(
            with_parent(x, parent_of(ts.push(x), ts.len() as int)),
        ),
{
    assert forall|j: int| 0 <= j < ts.len() implies resolve_parents(ts.push(x))[j] == resolve_parents(
        ts,
    )[j] by {
        lemma_parent_prefix(ts, x, j);
        assert(ts.push(x)[j] == ts[j]);
    }
}

pub open spec fn ov2(o: Option<Option<String>>) -> Option<Option<Seq<char>>> {
    match o {
        Some(i) => Some(ov(i)),
        None => None,
    }
}

/// The depth-indexed parent candidates describe the tasks so far.
pub open spec fn stack_ok(stack: Seq<Option<Option<String>>>, ts: Seq<BufferTaskV>) -> bool {
    &&& stack.len() == if ts.len() == 0 {
        0
    } else {
        ts.last().indent_level + 1
    }
    &&& forall|m: int| 0 <= m < stack.len() ==> ov2(#[trigger] stack[m]) == slot(ts, ts.len() as int, m as nat)
}

proof fn lemma_slot_beyond(ts: Seq<BufferTaskV>, m: nat)
    requires
        ts.len() == 0 || m > ts.last().indent_level,
    ensures
        slot(ts, ts.len() as int, m) is None,
{
}

proof fn lemma_slot_push(ts: Seq<BufferTaskV>, x: BufferTaskV, m: nat)
    ensures
        slot(ts.push(x), ts.len() + 1int, m) == if m < x.indent_level {
            slot(ts, ts.len() as int, m)
        } else if m == x.indent_level {
            Some(x.id)
        } else {
            None
        },
{
    let t2 = ts.push(x);
    assert(t2[ts.len() as int] == x);
    if m < x.indent_level {
        lemma_last_at_most_prefix(ts, x, ts.len() as int, m);
        lemma_last_at_most_in_range(ts, ts.len() as int, m);
        if let Some(k) = last_at_most(ts, ts.len() as int, m) {
            assert(t2[k] == ts[k]);
        }
    }
}

/// The line scan in progress, with the parents of the tasks seen so far already resolved.
struct ScanState {
    project: Option<String>,
    section: Option<String>,
    tasks: Vec<BufferTask>,
    warnings: Vec<String>,
    orphans: Vec<String>,
    stack: Vec<Option<Option<String>>>,
}

impl ScanState {
    spec fn matches(&self, sc: Scan) -> bool {
        &&& ov(self.project) == sc.project
        &&& ov(self.section) == sc.section
        &&& strs(self.warnings@) == sc.warnings
        &&& btasks(self.tasks@) == resolve_parents(sc.tasks)
        &&& strs(self.orphans@) == orphan_warnings(sc.tasks, sc.tasks.len() as int)
        &&& stack_ok(self.stack@, sc.tasks)
    }
}

fn clone_opt2(o: &Option<Option<String>>) -> (r: Option<Option<String>>)
    ensures
        ov2(r) == ov2(*o),
{
    match o {
        Some(i) => Some(clone_opt(i)),
        None => None,
    }
}

/// Records task `t` (read with no parent): resolves its parent from the tasks before it.
fn push_task(st: &mut ScanState, t: BufferTask, Ghost(sc): Ghost<Scan>)
    requires
        old(st).matches(sc),
        t.parent_id is None,
    ensures
        final(st).matches(Scan { tasks: sc.tasks.push(t@), ..sc }),
{
    let ghost ts = sc.tasks;
    let ghost ts2 = ts.push(t@);
    let level = t.indent_level;
    let parent: Option<String> = if level == 0 {
        None
    } else if level - 1 < st.stack.len() {
        match clone_opt2(&st.stack[level - 1]) {
            Some(p) => p,
            None => None,
        }
    } else {
        None
    };
    proof {
        assert(ts2[ts.len() as int] == t@);
        if level > 0 {
            lemma_last_at_most_prefix(ts, t@, ts.len() as int, (level - 1) as nat);
            if level - 1 < st.stack@.len() {
                assert(ov2(st.stack@[level - 1]) == slot(ts, ts.len() as int, (level - 1) as nat));
            } else {
                lemma_slot_beyond(ts, (level - 1) as nat);
            }
        }
        if level > 0 {
            lemma_last_at_most_in_range(ts, ts.len() as int, (level - 1) as nat);
            if let Some(k) = last_at_most(ts, ts.len() as int, (level - 1) as nat) {
                assert(ts2[k] == ts[k]);
            }
        }
        assert(ov(parent) == parent_of(ts2, ts.len() as int));
    }
    if level > 0 && parent.is_none() {
        let mut text = String::from_str(": subtask '");
        text.append(t.content.as_str());
        text.append("' has no resolvable parent — will be a root task");
        let mut w = String::from_str("Line ");
        push_usize(&mut w, t.line_num);
        w.append(text.as_str());
        assert(w@ =~= msg_orphan(t.line_num as nat, t.content@));
        st.orphans.push(w);
    }
    proof {
        lemma_orphans_prefix(ts, t@, ts.len() as int);
        assert(strs(st.orphans@) =~= orphan_warnings(ts2, ts2.len() as int));
    }
    // update the depth stack
    let id = clone_opt(&t.id);
    let mut stack: Vec<Option<Option<String>>> = Vec::new();
    std::mem::swap(&mut stack, &mut st.stack);
    if stack.len() > level {
        stack.truncate(level);
    } else {
        while stack.len() < level
            invariant
                stack@.len() <= level,
                ts.len() == 0 || stack@.len() > ts.last().indent_level,
                forall|m: int|
                    0 <= m < stack@.len() ==> ov2(#[trigger] stack@[m]) == slot(
                        ts,
                        ts.len() as int,
                        m as nat,
                    ),
            decreases level - stack@.len(),
        {
            proof {
                lemma_slot_beyond(ts, stack@.len() as nat);
            }
            stack.push(None);
        }
    }
    stack.push(Some(id));
    proof {
        assert forall|m: int| 0 <= m < stack@.len() implies ov2(#[trigger] stack@[m]) == slot(
            ts2,
            ts2.len() as int,
            m as nat,
        ) by {
            lemma_slot_push(ts, t@, m as nat);
        }
    }
    st.stack = stack;
    let mut t2 = t;
    t2.parent_id = parent;
    proof {
        lemma_resolve_push(ts, t@);
        assert(t2@ == with_parent(t@, parent_of(ts2, ts.len() as int)));
    }
    let ghost before = st.tasks@;
    st.tasks.push(t2);
    assert(btasks(st.tasks@) =~= btasks(before).push(t2@));
    assert(btasks(st.tasks@) =~= resolve_parents(ts2));
}


/// `Line {n}{text}`.
fn line_message(n: usize, text: &str) -> (r: String)
    ensures
        r@ == line_msg(n as nat, text@),
{
    let mut w = String::from_str("Line ");
    push_usize(&mut w, n);
    w.append(text);
    assert(w@ =~= line_msg(n as nat, text@));
    w
}

fn push_warning(st: &mut ScanState, w: String, Ghost(sc): Ghost<Scan>)
    requires
        old(st).matches(sc),
    ensures
        final(st).matches(Scan { warnings: sc.warnings.push(w@), ..sc }),
{
    let ghost before = st.warnings@;
    st.warnings.push(w);
    assert(strs(st.warnings@) =~= strs(before).push(w@));
}

/// Reads line `n` of the buffer.
fn scan_one(st: &mut ScanState, line: &str, n: usize, Ghost(sc): Ghost<Scan>)
    requires
        old(st).matches(sc),
        line_readable(line@),
    ensures
        final(st).matches(scan_line(sc, line@, n as nat)),
{
    let c = to_chars(line);
    let h2 = vec!['#', '#', ' '];
    let h3 = vec!['#', '#', '#', ' '];
    let h4 = vec!['#', '#', '#', '#', ' '];
    assert(h2@ =~= h2_pat());
    assert(h3@ =~= h3_pat());
    assert(h4@ =~= h4_pat());
    let starts_h3 = matches_at(c.as_slice(), h3.as_slice(), 0);
    let starts_h4 = matches_at(c.as_slice(), h4.as_slice(), 0);
    if matches_at(c.as_slice(), h2.as_slice(), 0) && !starts_h3 {
        let key = "project:";
        proof {
            reveal_strlit("project:");
            assert(key@ =~= project_key());
        }
        let p = extract_comment_value(line, key);
        let missing = p.is_none();
        st.project = p;
        st.section = None;
        if missing {
            let w = line_message(n, ": H2 has no <!-- project:ID --> — tasks here won't be synced");
            push_warning(st, w, Ghost(Scan { project: ov(st.project), section: None, ..sc }));
        }
        return ;
    }
    if starts_h3 && !starts_h4 {
        let key = "section:";
        proof {
            reveal_strlit("section:");
            assert(key@ =~= section_key());
        }
        let s = extract_comment_value(line, key);
        let missing = s.is_none();
        st.section = s;
        if missing {
            let w = line_message(n, ": H3 has no <!-- section:ID --> — tasks here won't be synced");
            push_warning(st, w, Ghost(Scan { section: ov(st.section), ..sc }));
        }
        return ;
    }
    if starts_h4 {
        return ;
    }
    let ws = skip_ws(c.as_slice(), 0);
    let ghost t = trim_start(line@);
    assert(t =~= c@.skip(ws as int));
    let box_u = vec!['-', ' ', '[', ' ', ']', ' '];
    let box_l = vec!['-', ' ', '[', 'x', ']', ' '];
    let box_c = vec!['-', ' ', '[', 'X', ']', ' '];
    assert(box_u@ =~= box_pat(' '));
    assert(box_l@ =~= box_pat('x'));
    assert(box_c@ =~= box_pat('X'));
    let unchecked = starts_with_at(c.as_slice(), box_u.as_slice(), ws);
    let checked = starts_with_at(c.as_slice(), box_l.as_slice(), ws) || starts_with_at(
        c.as_slice(),
        box_c.as_slice(),
        ws,
    );
    if !unchecked && !checked {
        return ;
    }
    assert(is_task_line(line@));
    assert(t.len() >= 6) by {
        assert(occurs_at(t, box_u@, 0) || occurs_at(t, box_l@, 0) || occurs_at(t, box_c@, 0));
    }
    let after = line.substring_char(ws + 6, c.len());
    assert(after@ =~= t.skip(6));
    let (raw, id) = strip_comment(after);
    let rc = to_chars(raw);
    let (a, b) = trim_bounds(rc.as_slice(), 0, rc.len());
    assert(rc@.subrange(0, rc@.len() as int) =~= raw@);
    let ct = raw.substring_char(a, b);
    let (clean, due) = extract_due(ct);
    let ctc = to_chars(ct);
    let dp = vec!['d', 'u', 'e', ':'];
    assert(dp@ =~= due_pat());
    let has_marker = find_chars_from(ctc.as_slice(), dp.as_slice(), 0).is_some();
    let ghost sc1 = Scan {
        warnings: if contains(ct@, due_pat()) && ov(due) is None {
            sc.warnings.push(msg_bad_due(n as nat))
        } else {
            sc.warnings
        },
        ..sc
    };
    if has_marker && due.is_none() {
        let w = line_message(n, ": 'due:' found but date is unparseable — ignoring due date");
        push_warning(st, w, Ghost(sc));
    }
    assert(st.matches(sc1));
    let cc = to_chars(clean.as_str());
    let (x, y) = trim_bounds(cc.as_slice(), 0, cc.len());
    assert(cc@.subrange(0, cc@.len() as int) =~= clean@);
    let content = slice_string(clean.as_str(), x, y);
    if content.as_str().is_empty() {
        let w = line_message(n, ": empty task content — skipped");
        push_warning(st, w, Ghost(sc1));
        return ;
    }
    if st.project.is_none() {
        let mut text = String::from_str(": task '");
        text.append(content.as_str());
        text.append("' has no project context — skipped");
        let w = line_message(n, text.as_str());
        assert(w@ =~= msg_no_context(n as nat, content@));
        push_warning(st, w, Ghost(sc1));
        return ;
    }
    let indent = leading_spaces(line);
    let task = BufferTask {
        id: id,
        content: content,
        checked: checked,
        indent_level: indent / 4,
        project_id: clone_opt(&st.project),
        section_id: clone_opt(&st.section),
        parent_id: None,
        line_num: n,
        due: due,
    };
    push_task(st, task, Ghost(sc1));
}

/// Whether the comment opening at `open` in `s` closes at least four characters later.
fn closes_after(s: &[char], open: Option<usize>) -> (r: bool)
    requires
        open matches Some(st) ==> st <= s@.len(),
    ensures
        r == comment_closes_after(
            s@,
            match open {
                Some(st) => Some(st as int),
                None => None,
            },
        ),
{
    let close = vec!['-', '-', '>'];
    assert(close@ =~= close_pat());
    match open {
        None => true,
        Some(st) => match find_chars_from(s, close.as_slice(), st) {
            Some(e) => e - st >= 4,
            None => true,
        },
    }
}

/// Whether `parse` can read `line`: the comment it slices there (the first one of a project
/// or section heading, the last one after a task's checkbox) is not `<!-->` or `<!--->`.
pub fn readable(line: &str) -> (r: bool)
    ensures
        r == line_readable(line@),
{
    let c = to_chars(line);
    let open = vec!['<', '!', '-', '-'];
    let h2 = vec!['#', '#', ' '];
    let h3 = vec!['#', '#', '#', ' '];
    let h4 = vec!['#', '#', '#', '#', ' '];
    assert(open@ =~= open_pat());
    assert(h2@ =~= h2_pat());
    assert(h3@ =~= h3_pat());
    assert(h4@ =~= h4_pat());
    let starts_h2 = matches_at(c.as_slice(), h2.as_slice(), 0);
    let starts_h3 = matches_at(c.as_slice(), h3.as_slice(), 0);
    let starts_h4 = matches_at(c.as_slice(), h4.as_slice(), 0);
    if (starts_h2 && !starts_h3) || (starts_h3 && !starts_h4) {
        let first = find_chars_from(c.as_slice(), open.as_slice(), 0);
        return closes_after(c.as_slice(), first);
    }
    if starts_h4 {
        return true;
    }
    let ws = skip_ws(c.as_slice(), 0);
    let ghost t = trim_start(line@);
    assert(t =~= c@.skip(ws as int));
    let box_u = vec!['-', ' ', '[', ' ', ']', ' '];
    let box_l = vec!['-', ' ', '[', 'x', ']', ' '];
    let box_c = vec!['-', ' ', '[', 'X', ']', ' '];
    assert(box_u@ =~= box_pat(' '));
    assert(box_l@ =~= box_pat('x'));
    assert(box_c@ =~= box_pat('X'));
    let unchecked = starts_with_at(c.as_slice(), box_u.as_slice(), ws);
    let checked = starts_with_at(c.as_slice(), box_l.as_slice(), ws) || starts_with_at(
        c.as_slice(),
        box_c.as_slice(),
        ws,
    );
    if !unchecked && !checked {
        return true;
    }
    assert(is_task_line(line@));
    assert(t.len() >= 6) by {
        assert(occurs_at(t, box_u@, 0) || occurs_at(t, box_l@, 0) || occurs_at(t, box_c@, 0));
    }
    let after = line.substring_char(ws + 6, c.len());
    assert(after@ =~= t.skip(6));
    let ac = to_chars(after);
    let last = rfind_chars(ac.as_slice(), open.as_slice());
    closes_after(ac.as_slice(), last)
}

/// The tasks read from a buffer, and what the reader had to warn about.
pub struct ParseResult {
    pub tasks: Vec<BufferTask>,
    pub warnings: Vec<String>,
}

/// Parses buffer lines into tasks.
///
/// `## ` headings set the project, `### ` headings the section (from their
/// `<!-- project:ID -->` / `<!-- section:ID -->` comments), `#### ` headings are ignored,
/// and `- [ ] ` / `- [x] ` / `- [X] ` lines (after any indent) are tasks, four spaces per
/// nesting level. A task's trailing `<!-- id:ID -->` gives its id and a trailing `due:` date
/// its due date. Nested tasks get the id of the closest shallower task as parent.
pub fn parse(lines: &[String]) -> (r: ParseResult)
    requires
        forall|i: int| 0 <= i < lines@.len() ==> line_readable(#[trigger] lines@[i]@),
    ensures
        btasks(r.tasks@) == parsed_tasks(strs(lines@)),
        strs(r.warnings@) == parsed_warnings(strs(lines@)),
{
    let ghost ls = strs(lines@);
    let mut st = ScanState {
        project: None,
        section: None,
        tasks: Vec::new(),
        warnings: Vec::new(),
        orphans: Vec::new(),
        stack: Vec::new(),
    };
    proof {
        let sc0 = scan_lines(ls, 0);
        assert(btasks(st.tasks@) =~= resolve_parents(sc0.tasks));
        assert(strs(st.warnings@) =~= sc0.warnings);
        assert(strs(st.orphans@) =~= orphan_warnings(sc0.tasks, 0));
    }
    let mut i: usize = 0;
    while i < lines.len()
        invariant
            ls == strs(lines@),
            i <= lines@.len(),
            forall|k: int| 0 <= k < lines@.len() ==> line_readable(#[trigger] lines@[k]@),
            st.matches(scan_lines(ls, i as int)),
        decreases lines@.len() - i,
    {
        assert(ls[i as int] == lines@[i as int]@);
        scan_one(&mut st, lines[i].as_str(), i + 1, Ghost(scan_lines(ls, i as int)));
        i = i + 1;
    }
    let ghost w1 = st.warnings@;
    let ghost w2 = st.orphans@;
    let mut warnings = st.warnings;
    let mut orphans = st.orphans;
    warnings.append(&mut orphans);
    assert(strs(warnings@) =~= strs(w1) + strs(w2));
    ParseResult { tasks: st.tasks, warnings }
}


/// Whitespace indentation is `4 * d` spaces followed by a non-blank.
proof fn lemma_indent_runs(d: nat, rest: Seq<char>, i: int)
    requires
        rest.len() > 0,
        !is_ws(rest[0]),
        rest[0] != ' ',
        0 <= i <= 4 * d,
    ensures
        ws_run_from(indent(d) + rest, i) == 4 * d,
        run_of(indent(d) + rest, ' ', i) == 4 * d,
    decreases 4 * d - i,
{
    let s = indent(d) + rest;
    if i < 4 * d {
        assert(s[i] == ' ');
        lemma_indent_runs(d, rest, i + 1);
    } else {
        assert(s[i] == rest[0]);
    }
}

/// A line as the tagged renderer writes it, without its line break: the task at depth `d`
/// followed by `<!-- id:ID -->`.
pub open spec fn rendered_line(t: Task, d: nat) -> Seq<char> {
    task_line(Style::Tagged, t, d).drop_last()
}

/// What reading a rendered task line back should give.
pub open spec fn read_back(st: Scan, t: Task, d: nat, n: nat) -> BufferTaskV {
    BufferTaskV {
        id: Some(t.id@),
        content: t.content@,
        checked: false,
        indent_level: d,
        project_id: st.project,
        section_id: st.section,
        parent_id: None,
        line_num: n,
        due: None,
    }
}

pub open spec fn id_open() -> Seq<char> {
    seq![' ', '<', '!', '-', '-', ' ', 'i', 'd', ':']
}

pub open spec fn id_close() -> Seq<char> {
    seq![' ', '-', '-', '>']
}

/// The text after the checkbox of a rendered task line.
pub open spec fn tagged_rest(c: Seq<char>, id: Seq<char>) -> Seq<char> {
    c + id_open() + id + id_close()
}

proof fn lemma_tagged_rest_chars(c: Seq<char>, id: Seq<char>)
    ensures
        ({
            let a = tagged_rest(c, id);
            let cl = c.len() as int;
            let il = id.len() as int;
            &&& a.len() == cl + 13 + il
            &&& forall|k: int| 0 <= k < cl ==> #[trigger] a[k] == c[k]
            &&& forall|k: int| 0 <= k < 9 ==> #[trigger] a[cl + k] == id_open()[k]
            &&& forall|k: int| 0 <= k < il ==> #[trigger] a[cl + 9 + k] == id[k]
            &&& forall|k: int| 0 <= k < 4 ==> #[trigger] a[cl + 9 + il + k] == id_close()[k]
        }),
{
}

proof fn lemma_last_open(c: Seq<char>, id: Seq<char>)
    requires
        !contains(id, open_pat()),
    ensures
        rfind(tagged_rest(c, id), open_pat()) == Some(c.len() + 1int),
{
    let a = tagged_rest(c, id);
    let cl = c.len() as int;
    let il = id.len() as int;
    lemma_tagged_rest_chars(c, id);
    let st0 = cl + 1;
    assert(a.subrange(st0, st0 + 4) =~= open_pat()) by {
        assert(a[cl + 1] == id_open()[1]);
        assert(a[cl + 2] == id_open()[2]);
        assert(a[cl + 3] == id_open()[3]);
        assert(a[cl + 4] == id_open()[4]);
    }
    assert forall|j: int| st0 < j <= a.len() - 4 implies !occurs_at(a, open_pat(), j) by {
        if occurs_at(a, open_pat(), j) {
            assert(a.subrange(j, j + 4)[0] == a[j]);
            if j < cl + 9 {
                assert(a[j] == id_open()[j - cl]);
            } else if j + 4 <= cl + 9 + il {
                assert(id.subrange(j - cl - 9, j - cl - 5) =~= a.subrange(j, j + 4));
                lemma_not_contains(id, open_pat(), j - cl - 9);
            } else if j < cl + 9 + il {
                let e = cl + 9 + il;
                assert(a.subrange(j, j + 4)[e - j] == a[e]);
                assert(a[e] == id_close()[0]);
            } else {
                assert(a[j] == id_close()[j - cl - 9 - il]);
            }
        }
    }
    lemma_rfind_upto_at(a, open_pat(), a.len() - 4, st0);
}

proof fn lemma_first_close(c: Seq<char>, id: Seq<char>)
    requires
        !contains(id, close_pat()),
    ensures
        find_from(tagged_rest(c, id), close_pat(), c.len() + 1int) == Some(c.len() + 10int + id.len()),
{
    let a = tagged_rest(c, id);
    let cl = c.len() as int;
    let il = id.len() as int;
    lemma_tagged_rest_chars(c, id);
    let st0 = cl + 1;
    let e0 = cl + 10 + il;
    assert(a.subrange(e0, e0 + 3) =~= close_pat()) by {
        assert(a[cl + 9 + il + 1] == id_close()[1]);
        assert(a[cl + 9 + il + 2] == id_close()[2]);
        assert(a[cl + 9 + il + 3] == id_close()[3]);
    }
    assert forall|j: int| st0 <= j < e0 implies !occurs_at(a, close_pat(), j) by {
        if occurs_at(a, close_pat(), j) {
            assert(a.subrange(j, j + 3)[0] == a[j]);
            assert(a.subrange(j, j + 3)[1] == a[j + 1]);
            assert(a.subrange(j, j + 3)[2] == a[j + 2]);
            if j < cl + 9 {
                assert(a[j] == id_open()[j - cl]);
                if j + 1 < cl + 9 {
                    assert(a[j + 1] == id_open()[j + 1 - cl]);
                }
                if j + 2 < cl + 9 {
                    assert(a[j + 2] == id_open()[j + 2 - cl]);
                }
            } else if j + 3 <= cl + 9 + il {
                assert(id.subrange(j - cl - 9, j - cl - 6) =~= a.subrange(j, j + 3));
                lemma_not_contains(id, close_pat(), j - cl - 9);
            } else if j < cl + 9 + il {
                let e = cl + 9 + il;
                assert(a.subrange(j, j + 3)[e - j] == a[e]);
                assert(a[e] == id_close()[0]);
            } else {
                assert(a[j] == id_close()[0]);
            }
        }
    }
    lemma_find_from_at(a, close_pat(), st0, e0);
}

proof fn lemma_comment_body(id: Seq<char>)
    requires
        id.len() == 0 || (!is_ws(id[0]) && !is_ws(id.last())),
    ensures
        ({
            let body = seq!['i', 'd', ':'] + id;
            &&& trim(seq![' '] + body + seq![' ']) == body
            &&& find(body, seq![':']) == Some(2int)
            &&& trim(body.skip(3)) == id
        }),
{
    let body = seq!['i', 'd', ':'] + id;
    let il = id.len() as int;
    let s1 = seq![' '] + body + seq![' '];
    assert(ws_run_from(s1, 1) == 1);
    assert(ws_run_from(s1, 0) == 1);
    let ts1 = trim_start(s1);
    assert(ts1 =~= body + seq![' ']);
    assert(ws_back_from(ts1, ts1.len() - 1) == ts1.len() - 1) by {
        if il > 0 {
            assert(ts1[ts1.len() - 2] == id.last());
        } else {
            assert(ts1[ts1.len() - 2] == ':');
        }
    }
    assert(ws_back_from(ts1, ts1.len() as int) == ts1.len() - 1);
    assert(trim(s1) =~= body);
    assert(!occurs_at(body, seq![':'], 0)) by {
        assert(body.subrange(0, 1)[0] == 'i');
    }
    assert(!occurs_at(body, seq![':'], 1)) by {
        assert(body.subrange(1, 2)[0] == 'd');
    }
    assert(body.subrange(2, 3) =~= seq![':']);
    lemma_find_from_at(body, seq![':'], 0, 2);
    assert(body.skip(3) =~= id);
    lemma_trim_unchanged(id);
}

/// The comment of a rendered task line gives back its id, and the text before it the content.
proof fn lemma_strip_rendered(c: Seq<char>, id: Seq<char>)
    requires
        c.len() > 0,
        !is_ws(c.last()),
        id.len() == 0 || (!is_ws(id[0]) && !is_ws(id.last())),
        !contains(id, open_pat()),
        !contains(id, close_pat()),
    ensures
        strip_comment_spec(tagged_rest(c, id)) == (c, Some(id)),
        comment_closes_after(tagged_rest(c, id), rfind(tagged_rest(c, id), open_pat())),
{
    let a = tagged_rest(c, id);
    let cl = c.len() as int;
    let il = id.len() as int;
    lemma_last_open(c, id);
    lemma_first_close(c, id);
    lemma_tagged_rest_chars(c, id);
    let body = seq!['i', 'd', ':'] + id;
    assert(a.subrange(cl + 5, cl + 10 + il) =~= seq![' '] + body + seq![' ']);
    lemma_comment_body(id);
    assert(a.take(cl + 1) =~= c + seq![' ']);
    let s2 = c + seq![' '];
    assert(ws_back_from(s2, cl) == cl) by {
        assert(s2[cl - 1] == c.last());
    }
    assert(ws_back_from(s2, cl + 1) == cl);
    assert(trim_end(s2) =~= c);
}

/// A line of `4 * d` spaces, a checkbox `- [ ] ` and `rest` is an unchecked task line `d` deep.
proof fn lemma_task_line_shape(d: nat, rest: Seq<char>)
    ensures
        ({
            let line = indent(d) + (box_pat(' ') + rest);
            &&& is_task_line(line)
            &&& trim_start(line) == box_pat(' ') + rest
            &&& !is_checked_box(box_pat(' ') + rest)
            &&& run_of(line, ' ', 0) / 4 == d
            &&& (box_pat(' ') + rest).skip(6) == rest
        }),
{
    let tt = box_pat(' ') + rest;
    let line = indent(d) + tt;
    assert(tt[0] == '-');
    lemma_indent_runs(d, tt, 0);
    assert(line[0] == ' ' || line[0] == '-') by {
        if d > 0 {
            assert(line[0] == ' ');
        } else {
            assert(line[0] == tt[0]);
        }
    }
    assert(!starts_with(line, h2_pat())) by {
        if line.len() >= 3 {
            assert(line.subrange(0, 3)[0] == line[0]);
        }
    }
    assert(!starts_with(line, h3_pat())) by {
        if line.len() >= 4 {
            assert(line.subrange(0, 4)[0] == line[0]);
        }
    }
    assert(!starts_with(line, h4_pat())) by {
        if line.len() >= 5 {
            assert(line.subrange(0, 5)[0] == line[0]);
        }
    }
    assert(trim_start(line) =~= tt);
    assert(tt.subrange(0, 6) =~= box_pat(' '));
    assert(!is_checked_box(tt)) by {
        assert(tt.subrange(0, 6)[3] == ' ');
    }
    assert(tt.skip(6) =~= rest);
}

/// The ids written into the buffer are read back: a task line that the tagged renderer
/// writes, read under a project heading, gives the task's id and content, its depth as
/// indent level, unchecked and without due date. (The content must not have whitespace at
/// its ends or contain `due:`; the id must not have whitespace at its ends or contain
/// `<!--` or `-->`.)
pub proof fn law_rendered_task_line_reads_back(st: Scan, t: Task, d: nat, n: nat)
    requires
        st.project is Some,
        t.content@.len() > 0,
        !is_ws(t.content@[0]),
        !is_ws(t.content@.last()),
        !contains(t.content@, due_pat()),
        t.id@.len() == 0 || (!is_ws(t.id@[0]) && !is_ws(t.id@.last())),
        !contains(t.id@, open_pat()),
        !contains(t.id@, close_pat()),
    ensures
        line_readable(rendered_line(t, d)),
        scan_line(st, rendered_line(t, d), n) == (Scan {
            tasks: st.tasks.push(read_back(st, t, d, n)),
            ..st
        }),
{
    reveal_strlit("- [ ] ");
    reveal_strlit(" <!-- id:");
    reveal_strlit(" -->\n");
    let c = t.content@;
    let id = t.id@;
    let a = tagged_rest(c, id);
    assert("- [ ] "@ =~= box_pat(' '));
    assert(" <!-- id:"@ =~= id_open());
    assert(" -->\n"@ =~= id_close().push('\n'));
    let line = indent(d) + (box_pat(' ') + a);
    assert(rendered_line(t, d) =~= line);
    lemma_task_line_shape(d, a);
    lemma_strip_rendered(c, id);
    lemma_trim_unchanged(c);
    let cl = c.len() as int;
    assert forall|j: int| 0 <= j <= cl - 4 implies !occurs_at(c, due_pat(), j) by {
        lemma_not_contains(c, due_pat(), j);
    }
    lemma_rfind_upto_none(c, due_pat(), cl - 4);
    assert(extract_due_spec(c) == (c, None::<Seq<char>>));
    assert(line_readable(line));
}


/// Task `t` was read from a task line of `lines`: it has the line's project, content without
/// whitespace at its ends, the depth of the line's indent, and is checked exactly when the
/// box is `[x]` or `[X]`.
pub open spec fn read_from(t: BufferTaskV, lines: Seq<Seq<char>>) -> bool {
    &&& 1 <= t.line_num <= lines.len()
    &&& is_task_line(lines[t.line_num - 1])
    &&& t.project_id is Some
    &&& t.content.len() > 0 && !is_ws(t.content[0]) && !is_ws(t.content.last())
    &&& t.indent_level == (run_of(lines[t.line_num - 1], ' ', 0) / 4) as nat
    &&& t.checked == is_checked_box(trim_start(lines[t.line_num - 1]))
}

proof fn lemma_scan_shape(lines: Seq<Seq<char>>, k: int)
    requires
        0 <= k <= lines.len(),
    ensures
        forall|j: int|
            0 <= j < scan_lines(lines, k).tasks.len() ==> read_from(
                #[trigger] scan_lines(lines, k).tasks[j],
                lines,
            ) && scan_lines(lines, k).tasks[j].line_num <= k,
        forall|i: int, j: int|
            0 <= i < j < scan_lines(lines, k).tasks.len() ==> (#[trigger] scan_lines(
                lines,
                k,
            ).tasks[i]).line_num < (#[trigger] scan_lines(lines, k).tasks[j]).line_num,
    decreases k,
{
    if k > 0 {
        lemma_scan_shape(lines, k - 1);
        let prev = scan_lines(lines, k - 1);
        let line = lines[k - 1];
        let cur = scan_lines(lines, k);
        assert(cur == scan_line(prev, line, k as nat));
        if is_task_line(line) && !is_h2_line(line) && !is_h3_line(line) {
            let t = trim_start(line);
            let (raw, id) = strip_comment_spec(t.skip(6));
            let ct = trim(raw);
            let (clean, due) = extract_due_spec(ct);
            lemma_trim_ends(clean);
        }
        assert forall|j: int| 0 <= j < cur.tasks.len() implies read_from(
            #[trigger] cur.tasks[j],
            lines,
        ) && cur.tasks[j].line_num <= k by {
            if j < prev.tasks.len() {
                assert(cur.tasks[j] == prev.tasks[j]);
            }
        }
        assert forall|i: int, j: int| 0 <= i < j < cur.tasks.len() implies (
        #[trigger] cur.tasks[i]).line_num < (#[trigger] cur.tasks[j]).line_num by {
            assert(cur.tasks[i] == prev.tasks[i]);
            if j < prev.tasks.len() {
                assert(cur.tasks[j] == prev.tasks[j]);
            }
        }
    }
}

/// Every task read from a buffer comes from a task line below a project heading, and the
/// tasks come in line order: each has a project, non-empty content without whitespace at
/// its ends, the depth of its line's indent (four spaces a level), is checked exactly when
/// its box is `[x]` or `[X]`, and has no parent at depth 0.
pub proof fn law_parsed_task_shape(lines: Seq<Seq<char>>)
    ensures
        forall|j: int|
            0 <= j < parsed_tasks(lines).len() ==> read_from(#[trigger] parsed_tasks(lines)[j], lines)
                && (parsed_tasks(lines)[j].indent_level == 0 ==> parsed_tasks(lines)[j].parent_id is None),
        forall|i: int, j: int|
            0 <= i < j < parsed_tasks(lines).len() ==> (#[trigger] parsed_tasks(lines)[i]).line_num
                < (#[trigger] parsed_tasks(lines)[j]).line_num,
{
    let ts = scan_lines(lines, lines.len() as int).tasks;
    lemma_scan_shape(lines, lines.len() as int);
    assert forall|j: int| 0 <= j < parsed_tasks(lines).len() implies read_from(
        #[trigger] parsed_tasks(lines)[j],
        lines,
    ) && (parsed_tasks(lines)[j].indent_level == 0 ==> parsed_tasks(lines)[j].parent_id is None) by {
        assert(parsed_tasks(lines)[j] == with_parent(ts[j], parent_of(ts, j)));
        assert(read_from(ts[j], lines));
    }
    assert forall|i: int, j: int| 0 <= i < j < parsed_tasks(lines).len() implies (
    #[trigger] parsed_tasks(lines)[i]).line_num < (#[trigger] parsed_tasks(lines)[j]).line_num by {
        assert(parsed_tasks(lines)[i] == with_parent(ts[i], parent_of(ts, i)));
        assert(parsed_tasks(lines)[j] == with_parent(ts[j], parent_of(ts, j)));
    }
}

} // verus!
