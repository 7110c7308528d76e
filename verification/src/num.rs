//! Numeral conversion: digit runs into repetition counts and weights.

use vstd::prelude::*;
use crate::scan::{is_digit, is_digit_x, scan_digits, scan_digits_x, lemma_scan_digits};
use crate::model::Weight;

verus! {

/// The value of one decimal digit character.
pub open spec fn digit_val(c: char) -> nat
    recommends
        is_digit(c),
{
    (c as u32 - 48) as nat
}

/// The value of a run of decimal digit characters, read left to right.
pub open spec fn digits_val(s: Seq<char>) -> nat
    decreases s,
{
    if s.len() == 0 {
        0
    } else {
        digits_val(s.drop_last()) * 10 + digit_val(s.last())
    }
}

/// The characters of `s` before `i`, leaving out the one at `d` (the
/// decimal point of a weight numeral; `d == s.len()` when there is none).
pub open spec fn digits_excluding(s: Seq<char>, d: int, i: int) -> Seq<char> {
    if i <= d {
        s.subrange(0, i)
    } else {
        s.subrange(0, d) + s.subrange(d + 1, i)
    }
}

/// Whether `s` is a weight numeral: digits with an optional fractional
/// part, as in `35` or `35.5`.  No sign, no exponent, nothing else.
pub open spec fn weight_numeral_ok(s: Seq<char>) -> bool {
    let d = scan_digits(s, 0);
    if d == s.len() {
        s.len() >= 1
    } else {
        d >= 1 && s[d] == '.' && d + 2 <= s.len() && scan_digits(s, d + 1) == s.len() as int
    }
}

/// The number of digits behind the decimal point of a weight numeral.
pub open spec fn weight_scale(s: Seq<char>) -> int {
    let d = scan_digits(s, 0);
    if d == s.len() {
        0
    } else {
        s.len() - d - 1
    }
}

/// What converting a weight numeral yields: the weight, or the text back
/// when it is not a plain decimal or its digits overflow the mantissa.
pub open spec fn spec_parse_weight(s: Seq<char>) -> Result<Weight, Seq<char>> {
    if !weight_numeral_ok(s) {
        Err(s)
    } else {
        let d = scan_digits(s, 0);
        let m = digits_val(digits_excluding(s, d, s.len() as int));
        if m > u64::MAX {
            Err(s)
        } else {
            Ok(Weight { mantissa: m as u64, scale: weight_scale(s) as usize })
        }
    }
}

/// What converting a repetition numeral yields: the count, or the text
/// back when it is not a digit run or overflows the count type.
pub open spec fn spec_parse_reps(s: Seq<char>) -> Result<i32, Seq<char>> {
    if !(s.len() >= 1 && scan_digits(s, 0) == s.len() as int) {
        Err(s)
    } else if digits_val(s) > i32::MAX {
        Err(s)
    } else {
        Ok(digits_val(s) as i32)
    }
}

/// Accumulates the value of the digits of `text` before `n`, skipping the
/// character at `d` if any; `None` when the value overflows `u64`.
fn digits_accumulate(text: &str, d: usize, n: usize) -> (r: Option<u64>)
    requires
        n == text@.len(),
        d <= n,
        forall|k: int| 0 <= k < n && k != d ==> is_digit(#[trigger] text@[k]),
    ensures
        match r {
            Some(v) => digits_val(digits_excluding(text@, d as int, n as int)) == v,
            None => digits_val(digits_excluding(text@, d as int, n as int)) > u64::MAX,
        },
{
    let mut acc: u64 = 0;
    let mut over: bool = false;
    let mut i: usize = 0;
    while i < n
        invariant
            i <= n,
            n == text@.len(),
            d <= n,
            forall|k: int| 0 <= k < n && k != d ==> is_digit(#[trigger] text@[k]),
            !over ==> acc == digits_val(digits_excluding(text@, d as int, i as int)),
            over ==> digits_val(digits_excluding(text@, d as int, i as int)) > u64::MAX,
        decreases n - i,
    {
        let ghost g_old = digits_excluding(text@, d as int, i as int);
        let ghost g_new = digits_excluding(text@, d as int, i as int + 1);
        if i == d {
            proof {
                assert(g_new =~= g_old);
            }
        } else {
            proof {
                assert(g_new.drop_last() =~= g_old);
                assert(g_new.last() == text@[i as int]);
                assert(digits_val(g_new) == digits_val(g_old) * 10 + digit_val(text@[i as int]));
            }
            let c = text.get_char(i);
            let u = c as u32;
            assert(48 <= u && u <= 57);
            let dv = (u - 48) as u64;
            assert(dv == digit_val(text@[i as int]));
            if !over {
                match acc.checked_mul(10) {
                    Some(m) => {
                        match m.checked_add(dv) {
                            Some(v) => {
                                acc = v;
                            },
                            None => {
                                over = true;
                            },
                        }
                    },
                    None => {
                        over = true;
                    },
                }
            }
        }
        i += 1;
    }
    if over {
        None
    } else {
        Some(acc)
    }
}

/// Converts a weight numeral, mirroring [`spec_parse_weight`].
pub fn parse_weight_x(text: &str) -> (r: Result<Weight, ()>)
    ensures
        match r {
            Ok(w) => spec_parse_weight(text@) == Ok::<Weight, Seq<char>>(w),
            Err(u) => spec_parse_weight(text@) == Err::<Weight, Seq<char>>(text@),
        },
{
    let n = text.unicode_len();
    let d = scan_digits_x(text, 0, n);
    proof {
        lemma_scan_digits(text@, 0);
    }
    let format_ok: bool = if d == n {
        n >= 1
    } else {
        d >= 1 && text.get_char(d) == '.' && n - d >= 2 && scan_digits_x(text, d + 1, n) == n
    };
    if !format_ok {
        return Err(());
    }
    proof {
        if d < n {
            lemma_scan_digits(text@, d as int + 1);
        }
    }
    match digits_accumulate(text, d, n) {
        None => Err(()),
        Some(m) => {
            let scale: usize = if d == n {
                0
            } else {
                n - d - 1
            };
            Ok(Weight { mantissa: m, scale })
        },
    }
}

/// Converts a repetition numeral, mirroring [`spec_parse_reps`].
pub fn parse_reps_x(text: &str) -> (r: Result<i32, ()>)
    ensures
        match r {
            Ok(v) => spec_parse_reps(text@) == Ok::<i32, Seq<char>>(v),
            Err(u) => spec_parse_reps(text@) == Err::<i32, Seq<char>>(text@),
        },
{
    let n = text.unicode_len();
    let d = scan_digits_x(text, 0, n);
    if n == 0 || d != n {
        return Err(());
    }
    proof {
        lemma_scan_digits(text@, 0);
        assert(digits_excluding(text@, n as int, n as int) =~= text@);
    }
    match digits_accumulate(text, n, n) {
        None => Err(()),
        Some(v) => {
            if v > 2147483647 {
                Err(())
            } else {
                Ok(v as i32)
            }
        },
    }
}

} // verus!
