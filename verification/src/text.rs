//! Character-level text handling shared by the buffer parser and the renderers.
//!
//! Every function here works on the `char` view of a string (`Seq<char>`), which is
//! what Rust's `str` methods (`trim`, `find`, `starts_with`, ...) mean for the
//! ASCII patterns this crate looks for.
use vstd::prelude::*;
use vstd::string::*;

verus! {

/// Unicode `White_Space`, the set of characters that `char::is_whitespace` accepts.
pub open spec fn is_ws(c: char) -> bool {
    ||| c == '\t'
    ||| c == '\n'
    ||| c == '\x0B'
    ||| c == '\x0C'
    ||| c == '\r'
    ||| c == ' '
    ||| c == '\u{85}'
    ||| c == '\u{A0}'
    ||| c == '\u{1680}'
    ||| ('\u{2000}' <= c && c <= '\u{200A}')
    ||| c == '\u{2028}'
    ||| c == '\u{2029}'
    ||| c == '\u{202F}'
    ||| c == '\u{205F}'
    ||| c == '\u{3000}'
}

pub fn is_whitespace(c: char) -> (r: bool)
    ensures
        r == is_ws(c),
{
    c == '\t' || c == '\n' || c == '\x0B' || c == '\x0C' || c == '\r' || c == ' ' || c == '\u{85}'
        || c == '\u{A0}' || c == '\u{1680}' || ('\u{2000}' <= c && c <= '\u{200A}') || c
        == '\u{2028}' || c == '\u{2029}' || c == '\u{202F}' || c == '\u{205F}' || c == '\u{3000}'
}

pub open spec fn is_digit(c: char) -> bool {
    '0' <= c && c <= '9'
}

/// Every character of `s` is whitespace (so `s.trim()` is empty).
pub open spec fn all_ws(s: Seq<char>) -> bool {
    forall|i: int| 0 <= i < s.len() ==> #[trigger] is_ws(s[i])
}

/// Index of the first character at or after `i` that is not whitespace (or `s.len()`).
pub open spec fn ws_run_from(s: Seq<char>, i: int) -> int
    decreases s.len() - i,
{
    if 0 <= i < s.len() && is_ws(s[i]) {
        ws_run_from(s, i + 1)
    } else {
        i
    }
}

/// Index just past the last character before `j` that is not whitespace (or 0).
pub open spec fn ws_back_from(s: Seq<char>, j: int) -> int
    decreases j,
{
    if 0 < j <= s.len() && is_ws(s[j - 1]) {
        ws_back_from(s, j - 1)
    } else {
        j
    }
}

/// `str::trim_start`.
pub open spec fn trim_start(s: Seq<char>) -> Seq<char> {
    s.skip(ws_run_from(s, 0))
}

/// `str::trim_end`.
pub open spec fn trim_end(s: Seq<char>) -> Seq<char> {
    s.take(ws_back_from(s, s.len() as int))
}

/// `str::trim`.
pub open spec fn trim(s: Seq<char>) -> Seq<char> {
    trim_end(trim_start(s))
}

/// Number of leading `c` characters of `s` from index `i` on.
pub open spec fn run_of(s: Seq<char>, c: char, i: int) -> int
    decreases s.len() - i,
{
    if 0 <= i < s.len() && s[i] == c {
        run_of(s, c, i + 1)
    } else {
        i
    }
}

/// `p` occurs in `s` at index `i`.
pub open spec fn occurs_at(s: Seq<char>, p: Seq<char>, i: int) -> bool {
    0 <= i && i + p.len() <= s.len() && s.subrange(i, i + p.len()) =~= p
}

pub open spec fn starts_with(s: Seq<char>, p: Seq<char>) -> bool {
    occurs_at(s, p, 0)
}

/// First occurrence of `p` in `s` at index `i` or later (`str::find` from `i`).
pub open spec fn find_from(s: Seq<char>, p: Seq<char>, i: int) -> Option<int>
    decreases s.len() - i,
{
    if i < 0 || i + p.len() > s.len() {
        None
    } else if occurs_at(s, p, i) {
        Some(i)
    } else {
        find_from(s, p, i + 1)
    }
}

/// `str::find`: index of the first occurrence of `p` in `s`.
pub open spec fn find(s: Seq<char>, p: Seq<char>) -> Option<int> {
    find_from(s, p, 0)
}

/// Last occurrence of `p` in `s` that starts at index `i` or before.
pub open spec fn rfind_upto(s: Seq<char>, p: Seq<char>, i: int) -> Option<int>
    decreases i + 1,
{
    if i < 0 {
        None
    } else if occurs_at(s, p, i) {
        Some(i)
    } else {
        rfind_upto(s, p, i - 1)
    }
}

/// `str::rfind`: index of the last occurrence of `p` in `s`.
pub open spec fn rfind(s: Seq<char>, p: Seq<char>) -> Option<int> {
    rfind_upto(s, p, s.len() - p.len())
}

/// `str::contains`.
pub open spec fn contains(s: Seq<char>, p: Seq<char>) -> bool {
    find(s, p) is Some
}

/// The characters of `s`, as a vector.
pub fn to_chars(s: &str) -> (v: Vec<char>)
    ensures
        v@ == s@,
{
    let n = s.unicode_len();
    let mut v: Vec<char> = Vec::new();
    let mut i: usize = 0;
    while i < n
        invariant
            n == s@.len(),
            i <= n,
            v@ =~= s@.take(i as int),
        decreases n - i,
    {
        v.push(s.get_char(i));
        i = i + 1;
    }
    v
}

pub fn skip_ws(s: &[char], start: usize) -> (r: usize)
    requires
        start <= s@.len(),
    ensures
        r as int == ws_run_from(s@, start as int),
        start <= r <= s@.len(),
{
    let mut i = start;
    while i < s.len() && is_whitespace(s[i])
        invariant
            start <= i <= s@.len(),
            ws_run_from(s@, start as int) == ws_run_from(s@, i as int),
        decreases s@.len() - i,
    {
        i = i + 1;
    }
    i
}

pub fn skip_ws_back(s: &[char], end: usize) -> (r: usize)
    requires
        end <= s@.len(),
    ensures
        r as int == ws_back_from(s@, end as int),
        r <= end,
{
    let mut j = end;
    while j > 0 && is_whitespace(s[j - 1])
        invariant
            j <= end <= s@.len(),
            ws_back_from(s@, end as int) == ws_back_from(s@, j as int),
        decreases j,
    {
        j = j - 1;
    }
    j
}

/// Bounds of `trim(s[from..to])`, relative to `s`.
pub fn trim_bounds(s: &[char], from: usize, to: usize) -> (r: (usize, usize))
    requires
        from <= to <= s@.len(),
    ensures
        from <= r.0 <= r.1 <= to,
        s@.subrange(r.0 as int, r.1 as int) == trim(s@.subrange(from as int, to as int)),
{
    let ghost t = s@.subrange(from as int, to as int);
    let a = skip_ws_sub(s, from, to);
    let b = skip_ws_back_sub(s, a, to);
    proof {
        let ts = trim_start(t);
        assert(ts =~= s@.subrange(a as int, to as int));
        assert(trim_end(ts) =~= s@.subrange(a as int, b as int));
    }
    (a, b)
}

/// First index in `from..to` not holding whitespace (or `to`), as `trim_start` of `s[from..to]` sees it.
pub fn skip_ws_sub(s: &[char], from: usize, to: usize) -> (r: usize)
    requires
        from <= to <= s@.len(),
    ensures
        from <= r <= to,
        r - from == ws_run_from(s@.subrange(from as int, to as int), 0),
{
    let ghost t = s@.subrange(from as int, to as int);
    let mut i = from;
    while i < to && is_whitespace(s[i])
        invariant
            from <= i <= to <= s@.len(),
            t == s@.subrange(from as int, to as int),
            ws_run_from(t, 0) == ws_run_from(t, i - from),
        decreases to - i,
    {
        i = i + 1;
    }
    i
}

/// Last index in `from..to` bounding the non-whitespace text, as `trim_end` of `s[from..to]` sees it.
pub fn skip_ws_back_sub(s: &[char], from: usize, to: usize) -> (r: usize)
    requires
        from <= to <= s@.len(),
    ensures
        from <= r <= to,
        r - from == ws_back_from(s@.subrange(from as int, to as int), to - from),
{
    let ghost t = s@.subrange(from as int, to as int);
    let mut j = to;
    while j > from && is_whitespace(s[j - 1])
        invariant
            from <= j <= to <= s@.len(),
            t == s@.subrange(from as int, to as int),
            ws_back_from(t, to - from) == ws_back_from(t, j - from),
        decreases j,
    {
        j = j - 1;
    }
    j
}

/// Does `p` occur in `s` at index `i`?
pub fn matches_at(s: &[char], p: &[char], i: usize) -> (r: bool)
    ensures
        r == occurs_at(s@, p@, i as int),
{
    if i > s.len() || p.len() > s.len() - i {
        return false;
    }
    let mut k: usize = 0;
    while k < p.len()
        invariant
            i + p.len() <= s.len(),
            k <= p.len(),
            forall|m: int| 0 <= m < k ==> s@[i + m] == p@[m],
        decreases p@.len() - k,
    {
        if s[i + k] != p[k] {
            assert(s@.subrange(i as int, i + p@.len())[k as int] != p@[k as int]);
            return false;
        }
        k = k + 1;
    }
    assert(s@.subrange(i as int, i + p@.len()) =~= p@);
    true
}

/// `str::find` of `p` in `s`, searching from index `start`.
pub fn find_chars_from(s: &[char], p: &[char], start: usize) -> (r: Option<usize>)
    ensures
        r matches Some(i) ==> find_from(s@, p@, start as int) == Some(i as int) && occurs_at(
            s@,
            p@,
            i as int,
        ) && start <= i,
        r is None ==> find_from(s@, p@, start as int) is None,
{
    let mut i = start;
    loop
        invariant
            start <= i,
            find_from(s@, p@, start as int) == find_from(s@, p@, i as int),
        decreases s@.len() + 1 - i,
    {
        if i > s.len() || p.len() > s.len() - i {
            return None;
        }
        if matches_at(s, p, i) {
            return Some(i);
        }
        i = i + 1;
    }
}

/// `str::rfind` of `p` in `s`.
pub fn rfind_chars(s: &[char], p: &[char]) -> (r: Option<usize>)
    ensures
        r matches Some(i) ==> rfind(s@, p@) == Some(i as int) && occurs_at(s@, p@, i as int),
        r is None ==> rfind(s@, p@) is None,
{
    if p.len() > s.len() {
        return None;
    }
    let mut i = s.len() - p.len();
    loop
        invariant
            i + p@.len() <= s@.len(),
            rfind(s@, p@) == rfind_upto(s@, p@, i as int),
        decreases i,
    {
        if matches_at(s, p, i) {
            return Some(i);
        }
        if i == 0 {
            assert(rfind_upto(s@, p@, -1) is None);
            return None;
        }
        i = i - 1;
    }
}

/// A decimal digit as its character.
pub open spec fn digit_char(d: int) -> char {
    if d == 0 {
        '0'
    } else if d == 1 {
        '1'
    } else if d == 2 {
        '2'
    } else if d == 3 {
        '3'
    } else if d == 4 {
        '4'
    } else if d == 5 {
        '5'
    } else if d == 6 {
        '6'
    } else if d == 7 {
        '7'
    } else if d == 8 {
        '8'
    } else {
        '9'
    }
}

/// The decimal representation of `n` without leading zeros (what `{}` prints).
pub open spec fn dec(n: nat) -> Seq<char>
    decreases n,
{
    if n < 10 {
        seq![digit_char(n as int)]
    } else {
        dec(n / 10) + seq![digit_char((n % 10) as int)]
    }
}

/// `n` in decimal, left-padded with zeros to at least `width` characters (what `{:0w}` prints).
pub open spec fn dec_padded(n: nat, width: nat) -> Seq<char> {
    let d = dec(n);
    if d.len() < width {
        Seq::new((width - d.len()) as nat, |i: int| '0') + d
    } else {
        d
    }
}

fn push_digit(out: &mut String, d: u64)
    requires
        d < 10,
    ensures
        final(out)@ == old(out)@.push(digit_char(d as int)),
{
    let s = if d == 0 {
        "0"
    } else if d == 1 {
        "1"
    } else if d == 2 {
        "2"
    } else if d == 3 {
        "3"
    } else if d == 4 {
        "4"
    } else if d == 5 {
        "5"
    } else if d == 6 {
        "6"
    } else if d == 7 {
        "7"
    } else if d == 8 {
        "8"
    } else {
        "9"
    };
    proof {
        reveal_strlit("0");
        reveal_strlit("1");
        reveal_strlit("2");
        reveal_strlit("3");
        reveal_strlit("4");
        reveal_strlit("5");
        reveal_strlit("6");
        reveal_strlit("7");
        reveal_strlit("8");
        reveal_strlit("9");
    }
    out.append(s);
    assert(out@ =~= old(out)@.push(digit_char(d as int)));
}

/// Appends `n` in decimal.
pub fn push_decimal(out: &mut String, n: u64)
    ensures
        final(out)@ == old(out)@ + dec(n as nat),
    decreases n,
{
    if n < 10 {
        push_digit(out, n);
        assert(out@ =~= old(out)@ + dec(n as nat));
    } else {
        push_decimal(out, n / 10);
        push_digit(out, n % 10);
        assert(out@ =~= old(out)@ + dec(n as nat));
    }
}

pub proof fn lemma_dec_len(n: nat)
    ensures
        dec(n).len() >= 1,
        n < 10 <==> dec(n).len() == 1,
        n < 100 <==> dec(n).len() <= 2,
        n < 1000 <==> dec(n).len() <= 3,
        n < 10000 <==> dec(n).len() <= 4,
    decreases n,
{
    if n >= 10 {
        lemma_dec_len(n / 10);
    }
}

/// Appends `n` in decimal, left-padded with zeros to at least `width` characters (`width <= 4`).
pub fn push_decimal_padded(out: &mut String, n: u64, width: u64)
    requires
        width <= 4,
    ensures
        final(out)@ == old(out)@ + dec_padded(n as nat, width as nat),
{
    proof {
        lemma_dec_len(n as nat);
    }
    let digits: u64 = if n < 10 {
        1
    } else if n < 100 {
        2
    } else if n < 1000 {
        3
    } else if n < 10000 {
        4
    } else {
        5
    };
    assert(digits >= 5 || digits == dec(n as nat).len());
    let mut k = digits;
    while k < width
        invariant
            digits <= k,
            digits < 5 ==> digits == dec(n as nat).len(),
            k <= width || k == digits,
            width <= 4,
            out@ =~= old(out)@ + Seq::new((k - digits) as nat, |i: int| '0'),
        decreases width - k,
    {
        push_digit(out, 0);
        k = k + 1;
    }
    let ghost pad = out@;
    push_decimal(out, n);
    assert(out@ =~= old(out)@ + dec_padded(n as nat, width as nat));
}

/// Appends `n` in decimal.
pub fn push_usize(out: &mut String, n: usize)
    ensures
        final(out)@ == old(out)@ + dec(n as nat),
{
    push_decimal(out, n as u64);
}

/// Does `c[i..]` start with `p`?
pub fn starts_with_at(c: &[char], p: &[char], i: usize) -> (r: bool)
    requires
        i <= c@.len(),
    ensures
        r == starts_with(c@.skip(i as int), p@),
{
    let r = matches_at(c, p, i);
    proof {
        let t = c@.skip(i as int);
        if i + p@.len() <= c@.len() {
            assert(t.subrange(0, p@.len() as int) =~= c@.subrange(i as int, i + p@.len()));
        }
    }
    r
}


pub proof fn lemma_find_from_at(s: Seq<char>, p: Seq<char>, i: int, k: int)
    requires
        0 <= i <= k,
        occurs_at(s, p, k),
        forall|j: int| i <= j < k ==> !occurs_at(s, p, j),
    ensures
        find_from(s, p, i) == Some(k),
    decreases k - i,
{
    if i < k {
        lemma_find_from_at(s, p, i + 1, k);
    }
}

pub proof fn lemma_find_from_none_absent(s: Seq<char>, p: Seq<char>, i: int, j: int)
    requires
        0 <= i <= j,
        find_from(s, p, i) is None,
    ensures
        !occurs_at(s, p, j),
    decreases j - i,
{
    if i < j && i + p.len() <= s.len() {
        lemma_find_from_none_absent(s, p, i + 1, j);
    }
}

/// `p` does not occur in `s` at all.
pub proof fn lemma_not_contains(s: Seq<char>, p: Seq<char>, j: int)
    requires
        !contains(s, p),
    ensures
        !occurs_at(s, p, j),
{
    if j >= 0 {
        lemma_find_from_none_absent(s, p, 0, j);
    }
}

pub proof fn lemma_rfind_upto_at(s: Seq<char>, p: Seq<char>, i: int, k: int)
    requires
        0 <= k <= i,
        occurs_at(s, p, k),
        forall|j: int| k < j <= i ==> !occurs_at(s, p, j),
    ensures
        rfind_upto(s, p, i) == Some(k),
    decreases i - k,
{
    if k < i {
        lemma_rfind_upto_at(s, p, i - 1, k);
    }
}

pub proof fn lemma_rfind_upto_none(s: Seq<char>, p: Seq<char>, i: int)
    requires
        forall|j: int| 0 <= j <= i ==> !occurs_at(s, p, j),
    ensures
        rfind_upto(s, p, i) is None,
    decreases i + 1,
{
    if i >= 0 {
        lemma_rfind_upto_none(s, p, i - 1);
    }
}

/// A string with no whitespace at either end trims to itself.
pub proof fn lemma_trim_unchanged(s: Seq<char>)
    requires
        s.len() == 0 || (!is_ws(s[0]) && !is_ws(s.last())),
    ensures
        trim(s) == s,
        trim_end(s) == s,
        trim_start(s) == s,
{
    assert(ws_run_from(s, 0) == 0);
    assert(s.skip(0) =~= s);
    assert(ws_back_from(s, s.len() as int) == s.len());
    assert(s.take(s.len() as int) =~= s);
}


proof fn lemma_ws_run_stops(s: Seq<char>, i: int)
    requires
        0 <= i,
    ensures
        i <= ws_run_from(s, i),
        i <= s.len() ==> ws_run_from(s, i) <= s.len(),
        ws_run_from(s, i) < s.len() ==> !is_ws(s[ws_run_from(s, i)]),
    decreases s.len() - i,
{
    if 0 <= i < s.len() && is_ws(s[i]) {
        lemma_ws_run_stops(s, i + 1);
    }
}

proof fn lemma_ws_back_stops(s: Seq<char>, j: int)
    requires
        0 <= j <= s.len(),
    ensures
        0 <= ws_back_from(s, j) <= j,
        0 < ws_back_from(s, j) ==> !is_ws(s[ws_back_from(s, j) - 1]),
    decreases j,
{
    if 0 < j <= s.len() && is_ws(s[j - 1]) {
        lemma_ws_back_stops(s, j - 1);
    }
}

/// What `trim` leaves has no whitespace at its ends.
pub proof fn lemma_trim_ends(s: Seq<char>)
    ensures
        trim(s).len() > 0 ==> !is_ws(trim(s)[0]) && !is_ws(trim(s).last()),
{
    lemma_ws_run_stops(s, 0);
    let t = trim_start(s);
    lemma_ws_back_stops(t, t.len() as int);
    let u = trim(s);
    if u.len() > 0 {
        let a = ws_run_from(s, 0);
        let b = ws_back_from(t, t.len() as int);
        assert(u.len() == b);
        assert(t.len() > 0);
        assert(a < s.len());
        assert(u[0] == t[0]);
        assert(t[0] == s[a]);
        assert(u.last() == t[ws_back_from(t, t.len() as int) - 1]);
    }
}

} // verus!
