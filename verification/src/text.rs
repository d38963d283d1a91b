//! Character-level text utilities shared by the request parser and the
//! response serializer: whitespace and digit classification, first-occurrence
//! substring search, and decimal rendering of numbers.

use vstd::prelude::*;
use vstd::string::*;
use vstd::utf8::encode_utf8;

verus! {

/// The length in bytes of the UTF-8 encoding of a character sequence.
pub open spec fn byte_len(s: Seq<char>) -> nat {
    encode_utf8(s).len()
}

/// The ASCII whitespace characters recognised when the request line is split
/// into tokens.
pub open spec fn is_ws(c: char) -> bool {
    c == ' ' || c == '\t' || c == '\n' || c == '\r' || c == '\x0b' || c == '\x0c'
}

/// Whether `c` is an ASCII whitespace character.
pub fn ws_char(c: char) -> (r: bool)
    ensures
        r == is_ws(c),
{
    c == ' ' || c == '\t' || c == '\n' || c == '\r' || c == '\x0b' || c == '\x0c'
}

/// The value of `c` as a decimal digit, if it is one.
pub open spec fn digit_val(c: char) -> Option<u32> {
    if '0' <= c && c <= '9' {
        Some((c as u32 - '0' as u32) as u32)
    } else {
        None
    }
}

/// Reads `c` as a decimal digit.
pub fn digit_of(c: char) -> (r: Option<u32>)
    ensures
        r == digit_val(c),
{
    if '0' <= c && c <= '9' {
        Some(c as u32 - '0' as u32)
    } else {
        None
    }
}

/// The index of the first whitespace character of `s` at or after `i` (the
/// length of `s` when there is none).
pub open spec fn next_ws(s: Seq<char>, i: int) -> int
    decreases s.len() - i,
    when 0 <= i
{
    if i >= s.len() {
        i
    } else if is_ws(s[i]) {
        i
    } else {
        next_ws(s, i + 1)
    }
}

/// The index of the first non-whitespace character of `s` at or after `i`
/// (the length of `s` when there is none).
pub open spec fn next_non_ws(s: Seq<char>, i: int) -> int
    decreases s.len() - i,
    when 0 <= i
{
    if i >= s.len() {
        i
    } else if !is_ws(s[i]) {
        i
    } else {
        next_non_ws(s, i + 1)
    }
}

/// What `next_ws` returns: the first whitespace position at or after `i`.
pub proof fn lemma_next_ws_props(s: Seq<char>, i: int)
    requires
        0 <= i <= s.len(),
    ensures
        i <= next_ws(s, i) <= s.len(),
        forall|k: int| i <= k < next_ws(s, i) ==> !is_ws(s[k]),
        next_ws(s, i) < s.len() ==> is_ws(s[next_ws(s, i)]),
    decreases s.len() - i,
{
    if i < s.len() && !is_ws(s[i]) {
        lemma_next_ws_props(s, i + 1);
    }
}

/// What `next_non_ws` returns: the first non-whitespace position at or after
/// `i`.
pub proof fn lemma_next_non_ws_props(s: Seq<char>, i: int)
    requires
        0 <= i <= s.len(),
    ensures
        i <= next_non_ws(s, i) <= s.len(),
        forall|k: int| i <= k < next_non_ws(s, i) ==> is_ws(s[k]),
        next_non_ws(s, i) < s.len() ==> !is_ws(s[next_non_ws(s, i)]),
    decreases s.len() - i,
{
    if i < s.len() && is_ws(s[i]) {
        lemma_next_non_ws_props(s, i + 1);
    }
}

/// Pins `next_ws` down: if nothing before `j` is whitespace and `j` is the
/// end or whitespace, the scan lands on `j`.
pub proof fn lemma_next_ws_value(s: Seq<char>, i: int, j: int)
    requires
        0 <= i <= j <= s.len(),
        forall|k: int| i <= k < j ==> !is_ws(s[k]),
        j == s.len() || is_ws(s[j]),
    ensures
        next_ws(s, i) == j,
    decreases j - i,
{
    if i < j {
        lemma_next_ws_value(s, i + 1, j);
    }
}

/// Pins `next_non_ws` down: if everything before `j` is whitespace and `j`
/// is the end or not whitespace, the scan lands on `j`.
pub proof fn lemma_next_non_ws_value(s: Seq<char>, i: int, j: int)
    requires
        0 <= i <= j <= s.len(),
        forall|k: int| i <= k < j ==> is_ws(s[k]),
        j == s.len() || !is_ws(s[j]),
    ensures
        next_non_ws(s, i) == j,
    decreases j - i,
{
    if i < j {
        lemma_next_non_ws_value(s, i + 1, j);
    }
}

/// Reading the character of a digit gives the digit back.
pub proof fn lemma_digit_round_trip(d: u32)
    requires
        d <= 9,
    ensures
        digit_val(digit_char(d as int)) == Some(d),
        !is_ws(digit_char(d as int)),
{
}

/// Scans from `i` to the first whitespace character.
pub fn scan_to_ws(s: &str, i: usize) -> (r: usize)
    requires
        i <= s@.len(),
    ensures
        r == next_ws(s@, i as int),
        i <= r <= s@.len(),
    decreases s@.len() - i,
{
    proof {
        lemma_next_ws_props(s@, i as int);
    }
    let n = s.unicode_len();
    let mut j = i;
    while j < n && !ws_char(s.get_char(j))
        invariant
            i <= j <= n,
            n == s@.len(),
            next_ws(s@, i as int) == next_ws(s@, j as int),
        decreases n - j,
    {
        j += 1;
    }
    j
}

/// Scans from `i` to the first non-whitespace character.
pub fn scan_to_non_ws(s: &str, i: usize) -> (r: usize)
    requires
        i <= s@.len(),
    ensures
        r == next_non_ws(s@, i as int),
        i <= r <= s@.len(),
    decreases s@.len() - i,
{
    proof {
        lemma_next_non_ws_props(s@, i as int);
    }
    let n = s.unicode_len();
    let mut j = i;
    while j < n && ws_char(s.get_char(j))
        invariant
            i <= j <= n,
            n == s@.len(),
            next_non_ws(s@, i as int) == next_non_ws(s@, j as int),
        decreases n - j,
    {
        j += 1;
    }
    j
}

/// Compares two string slices character by character.
pub fn str_eq(a: &str, b: &str) -> (r: bool)
    ensures
        r == (a@ == b@),
{
    let n = a.unicode_len();
    if n != b.unicode_len() {
        return false;
    }
    let mut i: usize = 0;
    while i < n
        invariant
            i <= n,
            n == a@.len(),
            n == b@.len(),
            forall|k: int| 0 <= k < i ==> a@[k] == b@[k],
        decreases n - i,
    {
        if a.get_char(i) != b.get_char(i) {
            return false;
        }
        i += 1;
    }
    proof {
        assert(a@ =~= b@);
    }
    true
}

/// `pat` occurs in `s` starting at index `i`.
pub open spec fn occurs_at(s: Seq<char>, pat: Seq<char>, i: int) -> bool {
    0 <= i && i + pat.len() <= s.len() && s.subrange(i, i + pat.len() as int) == pat
}

/// `pat` occurs somewhere in `s`.
pub open spec fn contains_pat(s: Seq<char>, pat: Seq<char>) -> bool {
    exists|i: int| occurs_at(s, pat, i)
}

/// The index of the first occurrence of `pat` in `s` at or after `from`.
pub open spec fn spec_find(s: Seq<char>, pat: Seq<char>, from: int) -> Option<int>
    decreases s.len() - from,
    when 0 <= from
    via spec_find_decreases
{
    if from + pat.len() > s.len() {
        None
    } else if s.subrange(from, from + pat.len() as int) == pat {
        Some(from)
    } else {
        spec_find(s, pat, from + 1)
    }
}

#[via_fn]
proof fn spec_find_decreases(s: Seq<char>, pat: Seq<char>, from: int) {
    lemma_nonmatch_nonempty(s, pat, from);
}

/// In the recursive branch of the search the pattern is nonempty: an empty
/// pattern always matches.
proof fn lemma_nonmatch_nonempty(s: Seq<char>, pat: Seq<char>, from: int)
    requires
        0 <= from,
    ensures
        from + pat.len() <= s.len() && s.subrange(from, from + pat.len() as int) != pat
            ==> pat.len() > 0,
{
    if from + pat.len() <= s.len() && pat.len() == 0 {
        assert(s.subrange(from, from + pat.len() as int) =~= pat);
    }
}

/// What `spec_find` returns: the first occurrence at or after `from`, or
/// nothing when there is none.
pub proof fn lemma_find_props(s: Seq<char>, pat: Seq<char>, from: int)
    requires
        0 <= from,
    ensures
        match spec_find(s, pat, from) {
            Some(i) => {
                &&& from <= i
                &&& occurs_at(s, pat, i)
                &&& forall|j: int| from <= j < i ==> !occurs_at(s, pat, j)
            },
            None => forall|j: int| from <= j ==> !occurs_at(s, pat, j),
        },
    decreases s.len() - from,
{
    if from + pat.len() > s.len() {
        assert forall|j: int| from <= j implies !occurs_at(s, pat, j) by {}
    } else if s.subrange(from, from + pat.len() as int) == pat {
    } else {
        lemma_nonmatch_nonempty(s, pat, from);
        lemma_find_props(s, pat, from + 1);
    }
}

/// If `pat` first occurs at `k`, then the search finds exactly `k`.
pub proof fn lemma_find_at_first(s: Seq<char>, pat: Seq<char>, k: int)
    requires
        occurs_at(s, pat, k),
        forall|j: int| 0 <= j < k ==> !occurs_at(s, pat, j),
    ensures
        spec_find(s, pat, 0) == Some(k),
{
    lemma_find_props(s, pat, 0);
}

/// `pat` occurs at `i` in `s`.
fn match_at(s: &str, pat: &str, i: usize) -> (r: bool)
    requires
        i + pat@.len() <= s@.len(),
    ensures
        r == occurs_at(s@, pat@, i as int),
{
    let n = s.unicode_len();
    let m = pat.unicode_len();
    let mut j: usize = 0;
    while j < m
        invariant
            j <= m,
            m == pat@.len(),
            n == s@.len(),
            i + m <= n,
            forall|k: int| 0 <= k < j ==> s@[i + k] == pat@[k],
        decreases m - j,
    {
        if s.get_char(i + j) != pat.get_char(j) {
            assert(s@.subrange(i as int, i + m as int)[j as int] != pat@[j as int]);
            return false;
        }
        j += 1;
    }
    assert(s@.subrange(i as int, i + m as int) =~= pat@);
    true
}

/// Finds the first occurrence of `pat` in `s` at or after `from`.
pub fn find_in(s: &str, pat: &str, from: usize) -> (r: Option<usize>)
    ensures
        match r {
            Some(i) => spec_find(s@, pat@, from as int) == Some(i as int),
            None => spec_find(s@, pat@, from as int) is None,
        },
{
    let n = s.unicode_len();
    let m = pat.unicode_len();
    if m == 0 {
        if from <= n {
            proof {
                assert(s@.subrange(from as int, from as int) =~= pat@);
            }
            return Some(from);
        } else {
            return None;
        }
    }
    if m > n || from > n - m {
        return None;
    }
    let mut i = from;
    while i <= n - m
        invariant
            n == s@.len(),
            m == pat@.len(),
            1 <= m <= n,
            from <= i,
            i <= n - m + 1,
            spec_find(s@, pat@, from as int) == spec_find(s@, pat@, i as int),
        decreases n - i,
    {
        if match_at(s, pat, i) {
            return Some(i);
        }
        i += 1;
    }
    None
}

/// The pieces of `s` between occurrences of the separator `pat`, in order.
/// Splitting keeps empty pieces, so joining the result with `pat` gives `s`
/// back; a string with no separator is a single piece.
pub open spec fn spec_split(s: Seq<char>, pat: Seq<char>) -> Seq<Seq<char>>
    decreases s.len(),
    when pat.len() > 0
    via spec_split_decreases
{
    match spec_find(s, pat, 0) {
        None => seq![s],
        Some(i) => seq![s.subrange(0, i)] + spec_split(
            s.subrange(i + pat.len() as int, s.len() as int),
            pat,
        ),
    }
}

#[via_fn]
proof fn spec_split_decreases(s: Seq<char>, pat: Seq<char>) {
    lemma_find_props(s, pat, 0);
}

/// Splits `s` at every occurrence of `pat`.
pub fn split_pat<'a>(s: &'a str, pat: &str) -> (r: Vec<&'a str>)
    requires
        pat@.len() > 0,
    ensures
        r.deep_view() == spec_split(s@, pat@),
    decreases s@.len(),
{
    proof {
        lemma_find_props(s@, pat@, 0);
    }
    match find_in(s, pat, 0) {
        None => {
            let mut v: Vec<&'a str> = Vec::new();
            v.push(s);
            proof {
                assert(v.deep_view() =~= spec_split(s@, pat@));
            }
            v
        },
        Some(i) => {
            let n = s.unicode_len();
            let m = pat.unicode_len();
            let head = s.substring_char(0, i);
            let rest = s.substring_char(i + m, n);
            let mut v = split_pat(rest, pat);
            let ghost tail_pieces = v.deep_view();
            v.insert(0, head);
            proof {
                assert(v.deep_view() =~= seq![head@] + tail_pieces);
            }
            v
        },
    }
}

/// The prefix of `lines` before its first empty line (all of `lines` when no
/// line is empty).
pub open spec fn take_until_empty(lines: Seq<Seq<char>>) -> Seq<Seq<char>>
    decreases lines.len(),
{
    if lines.len() == 0 {
        seq![]
    } else if lines[0].len() == 0 {
        seq![]
    } else {
        seq![lines[0]] + take_until_empty(lines.drop_first())
    }
}

/// Collects the lines from index `from` on, stopping before the first empty
/// line.
pub fn lines_until_empty<'a>(lines: &Vec<&'a str>, from: usize) -> (r: Vec<&'a str>)
    requires
        from <= lines@.len(),
    ensures
        r.deep_view() == take_until_empty(lines.deep_view().skip(from as int)),
    decreases lines@.len() - from,
{
    if from == lines.len() {
        let v: Vec<&'a str> = Vec::new();
        proof {
            assert(v.deep_view() =~= take_until_empty(lines.deep_view().skip(from as int)));
        }
        return v;
    }
    let line = lines[from];
    if line.is_empty() {
        let v: Vec<&'a str> = Vec::new();
        proof {
            assert(v.deep_view() =~= take_until_empty(lines.deep_view().skip(from as int)));
        }
        return v;
    }
    let mut v = lines_until_empty(lines, from + 1);
    let ghost tail_lines = v.deep_view();
    v.insert(0, line);
    proof {
        assert(lines.deep_view().skip(from as int).drop_first() =~= lines.deep_view().skip(
            from as int + 1,
        ));
        assert(v.deep_view() =~= seq![line@] + tail_lines);
    }
    v
}

/// The decimal digit characters, least significant last.
pub open spec fn digit_char(d: int) -> char {
    if d == 0 {
        '0'
    } else if d == 1 {
        '1'
    } else if d == 2 {
        '2'
    } else if d == 3 {
        '3'
    } else if d == 4 {
        '4'
    } else if d == 5 {
        '5'
    } else if d == 6 {
        '6'
    } else if d == 7 {
        '7'
    } else if d == 8 {
        '8'
    } else {
        '9'
    }
}

/// The decimal rendering of a non-negative number, most significant digit
/// first, with no leading zeros (a single `'0'` for zero).
pub open spec fn dec_digits(n: int) -> Seq<char>
    decreases n,
    when n >= 0
    via dec_digits_decreases
{
    if n < 10 {
        seq![digit_char(n)]
    } else {
        dec_digits(n / 10) + seq![digit_char(n % 10)]
    }
}

#[via_fn]
proof fn dec_digits_decreases(n: int) {
    if n >= 10 {
        assert(n / 10 < n) by (nonlinear_arith)
            requires
                n >= 10,
        ;
    }
}

/// The text of one decimal digit.
fn digit_str(d: usize) -> (r: &'static str)
    requires
        d < 10,
    ensures
        r@ == seq![digit_char(d as int)],
{
    let r = match d {
        0 => "0",
        1 => "1",
        2 => "2",
        3 => "3",
        4 => "4",
        5 => "5",
        6 => "6",
        7 => "7",
        8 => "8",
        _ => "9",
    };
    proof {
        reveal_strlit("0");
        reveal_strlit("1");
        reveal_strlit("2");
        reveal_strlit("3");
        reveal_strlit("4");
        reveal_strlit("5");
        reveal_strlit("6");
        reveal_strlit("7");
        reveal_strlit("8");
        reveal_strlit("9");
        assert(r@ =~= seq![digit_char(d as int)]);
    }
    r
}

/// Renders `n` in decimal.
pub fn dec_string(n: usize) -> (r: String)
    ensures
        r@ == dec_digits(n as int),
    decreases n,
{
    if n < 10 {
        String::from_str(digit_str(n))
    } else {
        let mut s = dec_string(n / 10);
        proof {
            assert(n / 10 < n) by (nonlinear_arith)
                requires
                    n >= 10,
            ;
        }
        s.append(digit_str(n % 10));
        s
    }
}

} // verus!
