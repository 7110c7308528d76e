//! Character classes and low-level scanning over lines of the note.

use vstd::prelude::*;
use vstd::string::*;

verus! {

/// Horizontal whitespace: blanks inside a line.  A carriage return counts
/// so that notes with `\r\n` line ends parse the same way.
pub open spec fn is_hws(c: char) -> bool {
    c == ' ' || c == '\t' || c == '\r'
}

/// An ASCII decimal digit.
pub open spec fn is_digit(c: char) -> bool {
    48 <= c as u32 && c as u32 <= 57
}

/// The separator between a weight and a repetition count.
pub open spec fn is_sep(c: char) -> bool {
    c == 'x' || c == 'X'
}

/// The index of the first character at or after `i` that is not horizontal
/// whitespace, or the length if only whitespace remains.
pub open spec fn skip_hws(s: Seq<char>, i: int) -> int
    decreases s.len() - i,
{
    if i < s.len() && is_hws(s[i]) {
        skip_hws(s, i + 1)
    } else {
        i
    }
}

/// The index of the first character at or after `i` that is not a digit,
/// or the length if only digits remain.
pub open spec fn scan_digits(s: Seq<char>, i: int) -> int
    decreases s.len() - i,
{
    if i < s.len() && is_digit(s[i]) {
        scan_digits(s, i + 1)
    } else {
        i
    }
}

/// `skip_hws` lands on the first non-blank character at or after `i`.
pub proof fn lemma_skip_hws(s: Seq<char>, i: int)
    requires
        0 <= i <= s.len(),
    ensures
        i <= skip_hws(s, i) <= s.len(),
        forall|k: int| i <= k < skip_hws(s, i) ==> is_hws(#[trigger] s[k]),
        skip_hws(s, i) < s.len() ==> !is_hws(s[skip_hws(s, i)]),
    decreases s.len() - i,
{
    if i < s.len() && is_hws(s[i]) {
        lemma_skip_hws(s, i + 1);
    }
}

/// `scan_digits` lands on the first non-digit character at or after `i`.
pub proof fn lemma_scan_digits(s: Seq<char>, i: int)
    requires
        0 <= i <= s.len(),
    ensures
        i <= scan_digits(s, i) <= s.len(),
        forall|k: int| i <= k < scan_digits(s, i) ==> is_digit(#[trigger] s[k]),
        scan_digits(s, i) < s.len() ==> !is_digit(s[scan_digits(s, i)]),
    decreases s.len() - i,
{
    if i < s.len() && is_digit(s[i]) {
        lemma_scan_digits(s, i + 1);
    }
}

/// The end of the text once trailing horizontal whitespace before `j` is
/// dropped.
pub open spec fn trim_end_from(s: Seq<char>, j: int) -> int
    decreases j,
{
    if j > 0 && is_hws(s[j - 1]) {
        trim_end_from(s, j - 1)
    } else {
        j
    }
}

/// `trim_end_from` lands just after the last non-blank character before `j`.
pub proof fn lemma_trim_end_from(s: Seq<char>, j: int)
    requires
        0 <= j <= s.len(),
    ensures
        0 <= trim_end_from(s, j) <= j,
        forall|k: int| trim_end_from(s, j) <= k < j ==> is_hws(#[trigger] s[k]),
        trim_end_from(s, j) > 0 ==> !is_hws(s[trim_end_from(s, j) - 1]),
    decreases j,
{
    if j > 0 && is_hws(s[j - 1]) {
        lemma_trim_end_from(s, j - 1);
    }
}

/// The text with horizontal whitespace removed from both ends.
pub open spec fn spec_trim(s: Seq<char>) -> Seq<char> {
    let a = skip_hws(s, 0);
    let b = trim_end_from(s, s.len() as int);
    if a <= b {
        s.subrange(a, b)
    } else {
        Seq::empty()
    }
}

/// Whether `c` is horizontal whitespace.
pub fn is_hws_x(c: char) -> (r: bool)
    ensures
        r == is_hws(c),
{
    c == ' ' || c == '\t' || c == '\r'
}

/// Whether `c` is an ASCII decimal digit.
pub fn is_digit_x(c: char) -> (r: bool)
    ensures
        r == is_digit(c),
{
    let u = c as u32;
    48 <= u && u <= 57
}

/// Whether `c` is the weight/reps separator.
pub fn is_sep_x(c: char) -> (r: bool)
    ensures
        r == is_sep(c),
{
    c == 'x' || c == 'X'
}

/// Skips horizontal whitespace in `s` starting at `i`; `n` is the length
/// of `s` in characters.
pub fn skip_hws_x(s: &str, i: usize, n: usize) -> (r: usize)
    requires
        n == s@.len(),
        i <= n,
    ensures
        r == skip_hws(s@, i as int),
        i <= r <= n,
{
    let mut j = i;
    while j < n && is_hws_x(s.get_char(j))
        invariant
            i <= j <= n,
            n == s@.len(),
            skip_hws(s@, i as int) == skip_hws(s@, j as int),
        decreases n - j,
    {
        j += 1;
    }
    j
}

/// Scans a run of digits in `s` starting at `i`; `n` is the length of `s`
/// in characters.
pub fn scan_digits_x(s: &str, i: usize, n: usize) -> (r: usize)
    requires
        n == s@.len(),
        i <= n,
    ensures
        r == scan_digits(s@, i as int),
        i <= r <= n,
{
    let mut j = i;
    while j < n && is_digit_x(s.get_char(j))
        invariant
            i <= j <= n,
            n == s@.len(),
            scan_digits(s@, i as int) == scan_digits(s@, j as int),
        decreases n - j,
    {
        j += 1;
    }
    j
}

/// A copy of `s` with horizontal whitespace removed from both ends.
pub fn trim_x(s: &str) -> (r: String)
    ensures
        r@ == spec_trim(s@),
{
    let n = s.unicode_len();
    let a = skip_hws_x(s, 0, n);
    let mut b = n;
    while b > 0 && is_hws_x(s.get_char(b - 1))
        invariant
            0 <= b <= n,
            n == s@.len(),
            trim_end_from(s@, n as int) == trim_end_from(s@, b as int),
        decreases b,
    {
        b -= 1;
    }
    if a <= b {
        String::from_str(s.substring_char(a, b))
    } else {
        String::new()
    }
}

} // verus!
