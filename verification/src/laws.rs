//! Laws of the parser, stated and proved against the same spec functions
//! its contracts use.

use vstd::prelude::*;
use crate::error::ErrorView;
use crate::grammar::{
    find_nl, leaf, lemma_find_nl, spec_parse_rule, split_from, split_lines, weight_end,
    BlockState, spec_assemble, spec_workout_tree, workout_node,
};
use crate::interp::{spec_interp_workout, spec_parse_workout};
use crate::model::ExerciseView;
use crate::error::SyntaxErrorView;
use crate::num::weight_numeral_ok;
use crate::scan::{is_digit, is_hws, lemma_scan_digits, scan_digits, skip_hws};
use crate::tree::{PairView, Rule};

verus! {

/// `scan_digits` lands exactly on `b` when everything before `b` is a
/// digit and `b` is the end or not a digit.
pub proof fn lemma_scan_digits_exact(s: Seq<char>, a: int, b: int)
    requires
        0 <= a <= b <= s.len(),
        forall|k: int| a <= k < b ==> is_digit(#[trigger] s[k]),
        b < s.len() ==> !is_digit(s[b]),
    ensures
        scan_digits(s, a) == b,
{
    lemma_scan_digits(s, a);
    let r = scan_digits(s, a);
    if r < b {
        assert(is_digit(s[r]));
        assert(false);
    }
    if r > b {
        assert(is_digit(s[b]));
        assert(false);
    }
}

/// The weight rule matches exactly the numeral: on a weight numeral
/// followed by nothing but horizontal whitespace, the matched leaf
/// carries the numeral itself, with none of its characters dropped and
/// none of the whitespace kept.
pub proof fn lemma_weight_matches_numeral(w: Seq<char>, t: Seq<char>)
    requires
        weight_numeral_ok(w),
        forall|k: int| 0 <= k < t.len() ==> is_hws(#[trigger] t[k]),
    ensures
        spec_parse_rule(Rule::weight, w + t) == Ok::<PairView, SyntaxErrorView>(
            leaf(Rule::weight, w),
        ),
{
    let s = w + t;
    let d = scan_digits(w, 0);
    lemma_scan_digits(w, 0);
    if d < w.len() {
        lemma_scan_digits(w, d + 1);
    }
    // every character of the input is a digit, a point, or blank; never a newline
    assert(forall|k: int| 0 <= k < w.len() ==> s[k] == #[trigger] w[k]);
    assert(forall|k: int| w.len() <= k < s.len() ==> s[k] == #[trigger] t[k - w.len()]);
    lemma_find_nl(s, 0);
    if find_nl(s, 0) < s.len() {
        let f = find_nl(s, 0);
        assert(s[f] == '\n');
        if f < w.len() {
            if f < d {
                assert(is_digit(w[f]));
            } else if d < w.len() && f == d {
                assert(w[f] == '.');
            } else {
                assert(is_digit(w[f]));
            }
        } else {
            assert(is_hws(t[f - w.len()]));
        }
        assert(false);
    }
    // so the first line is the whole input
    assert(split_from(s, 0) == seq![s.subrange(0, s.len() as int)]);
    let line = split_lines(s)[0];
    assert(line =~= s);
    // the numeral starts at the very first character
    assert(is_digit(s[0]));
    assert(skip_hws(line, 0) == 0);
    // the numeral ends exactly where the whitespace begins
    if d == w.len() {
        lemma_scan_digits_exact(s, 0, w.len() as int);
        assert(weight_end(s, 0) == w.len());
    } else {
        lemma_scan_digits(w, d + 1);
        lemma_scan_digits_exact(s, 0, d);
        assert(s[d] == '.');
        assert(is_digit(s[d + 1]));
        lemma_scan_digits_exact(s, d + 1, w.len() as int);
        assert(weight_end(s, 0) == w.len());
    }
    assert(s.subrange(0, w.len() as int) =~= w);
    assert(spec_parse_rule(Rule::weight, s) == Ok::<PairView, SyntaxErrorView>(
        leaf(Rule::weight, w),
    ));
}

/// Parsing has no hidden state: what a parse yields is a function of the
/// note's characters alone, so two parses of the same unmodified buffer
/// yield structurally equal results.  The contract of `parse_workout`
/// pins each call's result to `spec_parse_workout` of its input.
pub proof fn lemma_parse_workout_deterministic(
    s: Seq<char>,
    r1: Result<Seq<ExerciseView>, ErrorView>,
    r2: Result<Seq<ExerciseView>, ErrorView>,
)
    requires
        r1 == spec_parse_workout(s),
        r2 == spec_parse_workout(s),
    ensures
        r1 == r2,
{
}

/// An empty note is a valid note: it parses to no records at all, not to
/// an error.
pub proof fn lemma_empty_note_yields_no_records()
    ensures
        spec_parse_workout(Seq::<char>::empty()) == Ok::<Seq<ExerciseView>, ErrorView>(
            Seq::<ExerciseView>::empty(),
        ),
{
    let s = Seq::<char>::empty();
    assert(find_nl(s, 0) == 0);
    assert(split_from(s, 0) == seq![s.subrange(0, 0)]);
    let lines = split_lines(s);
    assert(lines[0] =~= Seq::<char>::empty());
    assert(skip_hws(lines[0], 0) == 0);
    assert(spec_assemble(lines, 0, BlockState::Outside) == spec_assemble(
        lines,
        1,
        BlockState::Outside,
    ));
    assert(spec_assemble(lines, 1, BlockState::Outside) == Ok::<Seq<PairView>, SyntaxErrorView>(
        Seq::empty(),
    ));
    assert(spec_workout_tree(s) == Ok::<PairView, SyntaxErrorView>(workout_node(Seq::empty())));
    assert(spec_interp_workout(workout_node(Seq::empty())) == Ok::<Seq<ExerciseView>, ErrorView>(
        Seq::empty(),
    ));
}

} // verus!
