//! The grammar: what text constitutes a valid workout note, and the parse
//! tree it produces.
//!
//! A note is read line by line.  A line whose first non-blank character is
//! a digit is a `set` line; any other non-blank line is a `name` line and
//! opens a new exercise block; blank lines close blocks.  A `set` line is
//! `weight x reps`, chained with `+` into supersets, with an optional
//! trailing free-text comment (a leading `#` marks one explicitly).  The
//! chain nests: `35 x 10 + 40 x 8` is a `set` node whose third child is
//! the `set` node for `40 x 8`.

use vstd::prelude::*;
use vstd::string::*;
use crate::error::{Error, SyntaxError, SyntaxErrorView};
use crate::scan::{
    is_digit, is_digit_x, is_sep, is_sep_x, lemma_scan_digits, lemma_skip_hws, scan_digits,
    scan_digits_x, skip_hws, skip_hws_x, spec_trim, trim_x,
};
use crate::tree::{
    lemma_pairs_view2, lemma_pairs_view3, lemma_pairs_view_index, lemma_pairs_view_push,
    pair_view, pairs_view, Pair, PairView, Rule,
};

verus! {

/// The end of the weight numeral that starts at `i`: its digits, and a
/// fractional part when a point with at least one digit follows.
pub open spec fn weight_end(line: Seq<char>, i: int) -> int {
    let d1 = scan_digits(line, i);
    if d1 < line.len() && line[d1] == '.' && d1 + 1 < line.len() && is_digit(line[d1 + 1]) {
        scan_digits(line, d1 + 1)
    } else {
        d1
    }
}

/// The comment leaf starting at `p`: the rest of the line, with a single
/// leading `#` marker dropped.
pub open spec fn comment_leaf(line: Seq<char>, p: int) -> PairView {
    let q = if line[p] == '#' {
        p + 1
    } else {
        p
    };
    PairView { rule: Rule::comment, text: line.subrange(q, line.len() as int), children: Seq::empty() }
}

/// A leaf node of the given rule and text.
pub open spec fn leaf(rule: Rule, text: Seq<char>) -> PairView {
    PairView { rule, text, children: Seq::empty() }
}

/// What matching the `set` rule against `line` from `i` yields: the `set`
/// node, or the failure position (a character index into the line) with
/// the rules expected there.
///
/// The node's children are the `weight` leaf, the `reps` leaf, and then at
/// most one of: the `set` node of the `+` continuation, or the `comment`
/// leaf.  Text that follows the repetitions and does not continue the
/// chain is the comment.
pub open spec fn spec_set_line(line: Seq<char>, i: int) -> Result<PairView, (int, Seq<Rule>)>
    decreases line.len() - i,
{
    if !(0 <= i < line.len() && is_digit(line[i])) {
        Err((i, seq![Rule::set]))
    } else {
        let wend = weight_end(line, i);
        let p1 = skip_hws(line, wend);
        if !(p1 < line.len() && is_sep(line[p1])) {
            Err((p1, seq![Rule::set]))
        } else {
            let p2 = skip_hws(line, p1 + 1);
            if !(p2 < line.len() && is_digit(line[p2])) {
                Err((p2, seq![Rule::reps]))
            } else {
                let rend = scan_digits(line, p2);
                let p3 = skip_hws(line, rend);
                let wleaf = leaf(Rule::weight, line.subrange(i, wend));
                let rleaf = leaf(Rule::reps, line.subrange(p2, rend));
                if p3 == line.len() {
                    Ok(PairView { rule: Rule::set, text: Seq::empty(), children: seq![wleaf, rleaf] })
                } else if line[p3] != '+' {
                    Ok(PairView {
                        rule: Rule::set,
                        text: Seq::empty(),
                        children: seq![wleaf, rleaf, comment_leaf(line, p3)],
                    })
                } else {
                    let p4 = skip_hws(line, p3 + 1);
                    if p4 < line.len() && is_digit(line[p4]) {
                        proof {
                            lemma_set_line_positions(line, i);
                        }
                        match spec_set_line(line, p4) {
                            Ok(inner) => Ok(PairView {
                                rule: Rule::set,
                                text: Seq::empty(),
                                children: seq![wleaf, rleaf, inner],
                            }),
                            Err(e) => Err(e),
                        }
                    } else {
                        Ok(PairView {
                            rule: Rule::set,
                            text: Seq::empty(),
                            children: seq![wleaf, rleaf, comment_leaf(line, p3)],
                        })
                    }
                }
            }
        }
    }
}

/// The scanning positions inside a set line only move forward and stay in
/// bounds.
pub proof fn lemma_set_line_positions(line: Seq<char>, i: int)
    requires
        0 <= i < line.len(),
        is_digit(line[i]),
    ensures
        ({
            let wend = weight_end(line, i);
            let p1 = skip_hws(line, wend);
            &&& i < wend <= line.len()
            &&& wend <= p1 <= line.len()
            &&& p1 < line.len() ==> ({
                let p2 = skip_hws(line, p1 + 1);
                let rend = scan_digits(line, p2);
                let p3 = skip_hws(line, rend);
                &&& p1 < p2 <= line.len()
                &&& p2 <= rend <= line.len()
                &&& rend <= p3 <= line.len()
                &&& p3 < line.len() ==> p3 < skip_hws(line, p3 + 1) <= line.len()
            })
        }),
{
    lemma_scan_digits(line, i);
    let d1 = scan_digits(line, i);
    assert(scan_digits(line, i) == scan_digits(line, i + 1));
    lemma_scan_digits(line, i + 1);
    if d1 < line.len() && line[d1] == '.' && d1 + 1 < line.len() && is_digit(line[d1 + 1]) {
        lemma_scan_digits(line, d1 + 1);
    }
    let wend = weight_end(line, i);
    lemma_skip_hws(line, wend);
    let p1 = skip_hws(line, wend);
    if p1 < line.len() {
        lemma_skip_hws(line, p1 + 1);
        let p2 = skip_hws(line, p1 + 1);
        lemma_scan_digits(line, p2);
        let rend = scan_digits(line, p2);
        lemma_skip_hws(line, rend);
        let p3 = skip_hws(line, rend);
        if p3 < line.len() {
            lemma_skip_hws(line, p3 + 1);
        }
    }
}

/// A one-element vector of expected rules.
fn expected1(r: Rule) -> (v: Vec<Rule>)
    ensures
        v@ =~= seq![r],
{
    let mut v: Vec<Rule> = Vec::new();
    v.push(r);
    v
}

/// A leaf node of the given rule, with its text copied out of `line`.
fn make_leaf(rule: Rule, line: &str, from: usize, to: usize) -> (p: Pair)
    requires
        from <= to <= line@.len(),
    ensures
        p@ == leaf(rule, line@.subrange(from as int, to as int)),
{
    let p = Pair {
        rule,
        text: String::from_str(line.substring_char(from, to)),
        children: Vec::new(),
    };
    proof {
        assert(pairs_view(p.children@) =~= Seq::<PairView>::empty());
    }
    p
}

/// The comment leaf starting at `p`, mirroring [`comment_leaf`].
fn make_comment(line: &str, p: usize, n: usize) -> (r: Pair)
    requires
        n == line@.len(),
        p < n,
    ensures
        r@ == comment_leaf(line@, p as int),
{
    let q = if line.get_char(p) == '#' {
        p + 1
    } else {
        p
    };
    make_leaf(Rule::comment, line, q, n)
}

/// A `set` node over two children.
fn make_set2(a: Pair, b: Pair) -> (r: Pair)
    ensures
        r@ == (PairView {
            rule: Rule::set,
            text: Seq::empty(),
            children: seq![pair_view(a), pair_view(b)],
        }),
{
    let ghost a0 = a;
    let ghost b0 = b;
    let mut children: Vec<Pair> = Vec::new();
    children.push(a);
    children.push(b);
    proof {
        assert(children@ =~= seq![a0, b0]);
        lemma_pairs_view2(a0, b0);
    }
    Pair { rule: Rule::set, text: String::new(), children }
}

/// A `set` node over three children.
fn make_set3(a: Pair, b: Pair, c: Pair) -> (r: Pair)
    ensures
        r@ == (PairView {
            rule: Rule::set,
            text: Seq::empty(),
            children: seq![pair_view(a), pair_view(b), pair_view(c)],
        }),
{
    let ghost a0 = a;
    let ghost b0 = b;
    let ghost c0 = c;
    let mut children: Vec<Pair> = Vec::new();
    children.push(a);
    children.push(b);
    children.push(c);
    proof {
        assert(children@ =~= seq![a0, b0, c0]);
        lemma_pairs_view3(a0, b0, c0);
    }
    Pair { rule: Rule::set, text: String::new(), children }
}

/// Matches the `set` rule against `line` from `i`, mirroring
/// [`spec_set_line`].
pub(crate) fn set_line_x(line: &str, i: usize, n: usize) -> (r: Result<Pair, (usize, Vec<Rule>)>)
    requires
        n == line@.len(),
        i <= n,
    ensures
        match r {
            Ok(p) => spec_set_line(line@, i as int) == Ok::<PairView, (int, Seq<Rule>)>(p@),
            Err(e) => spec_set_line(line@, i as int) == Err::<PairView, (int, Seq<Rule>)>(
                (e.0 as int, e.1@),
            ) && e.0 <= n,
        },
    decreases n - i,
{
    if !(i < n && is_digit_x(line.get_char(i))) {
        return Err((i, expected1(Rule::set)));
    }
    proof {
        lemma_set_line_positions(line@, i as int);
    }
    let d1 = scan_digits_x(line, i, n);
    let wend: usize = if d1 < n && line.get_char(d1) == '.' && d1 + 1 < n
        && is_digit_x(line.get_char(d1 + 1)) {
        scan_digits_x(line, d1 + 1, n)
    } else {
        d1
    };
    let p1 = skip_hws_x(line, wend, n);
    if !(p1 < n && is_sep_x(line.get_char(p1))) {
        return Err((p1, expected1(Rule::set)));
    }
    let p2 = skip_hws_x(line, p1 + 1, n);
    if !(p2 < n && is_digit_x(line.get_char(p2))) {
        return Err((p2, expected1(Rule::reps)));
    }
    let rend = scan_digits_x(line, p2, n);
    let p3 = skip_hws_x(line, rend, n);
    let wleaf = make_leaf(Rule::weight, line, i, wend);
    let rleaf = make_leaf(Rule::reps, line, p2, rend);
    if p3 == n {
        return Ok(make_set2(wleaf, rleaf));
    }
    if line.get_char(p3) != '+' {
        let c = make_comment(line, p3, n);
        return Ok(make_set3(wleaf, rleaf, c));
    }
    let p4 = skip_hws_x(line, p3 + 1, n);
    if p4 < n && is_digit_x(line.get_char(p4)) {
        match set_line_x(line, p4, n) {
            Ok(inner) => Ok(make_set3(wleaf, rleaf, inner)),
            Err(e) => Err(e),
        }
    } else {
        let c = make_comment(line, p3, n);
        Ok(make_set3(wleaf, rleaf, c))
    }
}

} // verus!

verus! {

// ---------------------------------------------------------------------------
// Splitting the note into lines
// ---------------------------------------------------------------------------

/// The index of the first newline at or after `i`, or the length.
pub open spec fn find_nl(s: Seq<char>, i: int) -> int
    decreases s.len() - i,
{
    if i < s.len() && s[i] != '\n' {
        find_nl(s, i + 1)
    } else {
        i
    }
}

/// `find_nl` lands on the first newline at or after `i`.
pub proof fn lemma_find_nl(s: Seq<char>, i: int)
    ensures
        i <= find_nl(s, i),
        i <= s.len() ==> find_nl(s, i) <= s.len(),
        forall|k: int| i <= k < find_nl(s, i) ==> #[trigger] s[k] != '\n',
        find_nl(s, i) < s.len() ==> s[find_nl(s, i)] == '\n',
    decreases s.len() - i,
{
    if i < s.len() && s[i] != '\n' {
        lemma_find_nl(s, i + 1);
    }
}

/// The lines of `s` from `i` on: the spans between newlines, in order,
/// without the newlines themselves.  There is always at least one line;
/// an empty text is one empty line.
pub open spec fn split_from(s: Seq<char>, i: int) -> Seq<Seq<char>>
    decreases s.len() - i,
{
    let k = find_nl(s, i);
    if k >= s.len() {
        seq![s.subrange(i, s.len() as int)]
    } else {
        proof {
            lemma_find_nl(s, i);
        }
        seq![s.subrange(i, k)] + split_from(s, k + 1)
    }
}

/// The lines of the whole of `s`.
pub open spec fn split_lines(s: Seq<char>) -> Seq<Seq<char>> {
    split_from(s, 0)
}

/// How many lines there are and how long each can be, in terms of the
/// text they came from.
pub proof fn lemma_split_bounds(s: Seq<char>, i: int)
    requires
        0 <= i <= s.len(),
    ensures
        1 <= split_from(s, i).len() <= s.len() - i + 1,
        forall|j: int|
            0 <= j < split_from(s, i).len() ==> (#[trigger] split_from(s, i)[j]).len() <= s.len()
                - i,
    decreases s.len() - i,
{
    lemma_find_nl(s, i);
    let k = find_nl(s, i);
    if k < s.len() {
        lemma_split_bounds(s, k + 1);
    }
}

/// The views of a sequence of line strings.
pub open spec fn lines_view(v: Seq<String>) -> Seq<Seq<char>> {
    v.map_values(|x: String| x@)
}

/// The index of the first newline in `s` at or after `i`, mirroring
/// [`find_nl`]; `n` is the length of `s` in characters.
fn find_nl_x(s: &str, i: usize, n: usize) -> (r: usize)
    requires
        n == s@.len(),
        i <= n,
    ensures
        r == find_nl(s@, i as int),
        i <= r <= n,
{
    let mut j = i;
    while j < n && s.get_char(j) != '\n'
        invariant
            i <= j <= n,
            n == s@.len(),
            find_nl(s@, i as int) == find_nl(s@, j as int),
        decreases n - j,
    {
        j += 1;
    }
    j
}

/// Splits `s` into its lines, mirroring [`split_lines`].
pub(crate) fn split_lines_x(s: &str) -> (r: Vec<String>)
    ensures
        lines_view(r@) == split_lines(s@),
{
    let n = s.unicode_len();
    let mut out: Vec<String> = Vec::new();
    let mut start: usize = 0;
    proof {
        assert(lines_view(out@) + split_from(s@, 0) =~= split_from(s@, 0));
    }
    loop
        invariant
            start <= n,
            n == s@.len(),
            split_lines(s@) =~= lines_view(out@) + split_from(s@, start as int),
        decreases n - start,
    {
        let k = find_nl_x(s, start, n);
        let line = String::from_str(s.substring_char(start, k));
        let ghost prev = lines_view(out@);
        out.push(line);
        proof {
            assert(lines_view(out@) =~= prev.push(s@.subrange(start as int, k as int)));
        }
        if k == n {
            proof {
                assert(split_from(s@, start as int) =~= seq![
                    s@.subrange(start as int, n as int),
                ]);
                assert(lines_view(out@) + Seq::<Seq<char>>::empty() =~= lines_view(out@));
                assert(split_lines(s@) =~= lines_view(out@));
            }
            return out;
        }
        proof {
            lemma_find_nl(s@, start as int);
            assert(split_from(s@, start as int) == seq![s@.subrange(start as int, k as int)]
                + split_from(s@, k as int + 1));
            assert(prev + split_from(s@, start as int) =~= lines_view(out@) + split_from(
                s@,
                k as int + 1,
            ));
        }
        start = k + 1;
    }
}

} // verus!

verus! {

// ---------------------------------------------------------------------------
// Assembling lines into exercise blocks
// ---------------------------------------------------------------------------

/// The state of the line walk: outside any block, or inside a block with
/// its `name` leaf and the `set` nodes seen so far.
pub enum BlockState {
    Outside,
    Open(PairView, Seq<PairView>),
}

/// The `name` leaf of a name line: the line's text, trimmed.
pub open spec fn name_leaf(line: Seq<char>) -> PairView {
    PairView { rule: Rule::name, text: spec_trim(line), children: Seq::empty() }
}

/// An `exercise` node: the `name` leaf followed by the block's `set` nodes.
pub open spec fn exercise_node(nm: PairView, sets: Seq<PairView>) -> PairView {
    PairView { rule: Rule::exercise, text: Seq::empty(), children: seq![nm] + sets }
}

/// The `workout` node over the note's `exercise` nodes.
pub open spec fn workout_node(exs: Seq<PairView>) -> PairView {
    PairView { rule: Rule::workout, text: Seq::empty(), children: exs }
}

/// A syntax error at line index `li` and character index `idx`, as the
/// 1-based position error carries.
pub open spec fn pos_err(li: int, idx: int, expected: Seq<Rule>) -> SyntaxErrorView {
    SyntaxErrorView { line: li + 1, col: idx + 1, expected }
}

/// The error position just past the end of the input, where a `set` line
/// was still owed to an open block.
pub open spec fn eof_err(lines: Seq<Seq<char>>) -> SyntaxErrorView {
    if lines.len() == 0 {
        SyntaxErrorView { line: 1, col: 1, expected: seq![Rule::set] }
    } else {
        SyntaxErrorView {
            line: lines.len() as int,
            col: lines.last().len() as int + 1,
            expected: seq![Rule::set],
        }
    }
}

/// Puts `x` before the nodes of `r`, passing an error through.
pub open spec fn prepend(x: PairView, r: Result<Seq<PairView>, SyntaxErrorView>) -> Result<
    Seq<PairView>,
    SyntaxErrorView,
> {
    match r {
        Ok(v) => Ok(seq![x] + v),
        Err(e) => Err(e),
    }
}

/// What walking the lines from `li` in state `st` yields: the `exercise`
/// nodes of the rest of the note, or the first syntax error.
///
/// A blank line or a new name line closes the open block; a block whose
/// name line is not followed by at least one `set` line is a syntax error
/// at the place where the `set` line was expected, and a `set` line with
/// no block open is one expecting a `name` line.
pub open spec fn spec_assemble(lines: Seq<Seq<char>>, li: int, st: BlockState) -> Result<
    Seq<PairView>,
    SyntaxErrorView,
>
    decreases lines.len() - li,
{
    if li < 0 || li >= lines.len() {
        match st {
            BlockState::Outside => Ok(Seq::empty()),
            BlockState::Open(nm, sets) => if sets.len() == 0 {
                Err(eof_err(lines))
            } else {
                Ok(seq![exercise_node(nm, sets)])
            },
        }
    } else {
        let line = lines[li];
        let fc = skip_hws(line, 0);
        if fc == line.len() {
            match st {
                BlockState::Outside => spec_assemble(lines, li + 1, BlockState::Outside),
                BlockState::Open(nm, sets) => if sets.len() == 0 {
                    Err(pos_err(li, fc, seq![Rule::set]))
                } else {
                    prepend(
                        exercise_node(nm, sets),
                        spec_assemble(lines, li + 1, BlockState::Outside),
                    )
                },
            }
        } else if is_digit(line[fc]) {
            match st {
                BlockState::Outside => Err(pos_err(li, fc, seq![Rule::name])),
                BlockState::Open(nm, sets) => match spec_set_line(line, fc) {
                    Err((c, exp)) => Err(pos_err(li, c, exp)),
                    Ok(sp) => spec_assemble(lines, li + 1, BlockState::Open(nm, sets.push(sp))),
                },
            }
        } else {
            match st {
                BlockState::Outside => spec_assemble(
                    lines,
                    li + 1,
                    BlockState::Open(name_leaf(line), Seq::empty()),
                ),
                BlockState::Open(nm, sets) => if sets.len() == 0 {
                    Err(pos_err(li, fc, seq![Rule::set]))
                } else {
                    prepend(
                        exercise_node(nm, sets),
                        spec_assemble(lines, li + 1, BlockState::Open(name_leaf(line), Seq::empty())),
                    )
                },
            }
        }
    }
}

/// What the grammar yields on a whole note: the `workout` node, or the
/// first syntax error.
pub open spec fn spec_workout_tree(s: Seq<char>) -> Result<PairView, SyntaxErrorView> {
    match spec_assemble(split_lines(s), 0, BlockState::Outside) {
        Ok(exs) => Ok(workout_node(exs)),
        Err(e) => Err(e),
    }
}

/// Nodes already emitted, put before what the rest of the walk yields.
pub open spec fn with_prefix(acc: Seq<PairView>, r: Result<Seq<PairView>, SyntaxErrorView>) -> Result<
    Seq<PairView>,
    SyntaxErrorView,
> {
    match r {
        Ok(v) => Ok(acc + v),
        Err(e) => Err(e),
    }
}

/// Emitting one node and then the rest is the same as putting it at the
/// end of what was already emitted.
pub proof fn lemma_with_prefix_push(
    acc: Seq<PairView>,
    x: PairView,
    r: Result<Seq<PairView>, SyntaxErrorView>,
)
    ensures
        with_prefix(acc, prepend(x, r)) == with_prefix(acc.push(x), r),
{
    match r {
        Ok(v) => {
            assert(acc + (seq![x] + v) =~= acc.push(x) + v);
        },
        Err(e) => {},
    }
}

/// The walk state the executable walker is in.
pub open spec fn st_of(nm: Option<Pair>, sets: Seq<Pair>) -> BlockState {
    match nm {
        Some(p) => BlockState::Open(pair_view(p), pairs_view(sets)),
        None => BlockState::Outside,
    }
}

/// The `name` leaf of a name line, mirroring [`name_leaf`].
fn make_name(line: &str) -> (p: Pair)
    ensures
        p@ == name_leaf(line@),
{
    let p = Pair { rule: Rule::name, text: trim_x(line), children: Vec::new() };
    proof {
        assert(pairs_view(p.children@) =~= Seq::<PairView>::empty());
    }
    p
}

/// An `exercise` node over a `name` leaf and `set` nodes, mirroring
/// [`exercise_node`].
fn make_exercise(nm: Pair, sets: Vec<Pair>) -> (p: Pair)
    ensures
        p@ == exercise_node(pair_view(nm), pairs_view(sets@)),
{
    let ghost nm0 = nm;
    let ghost sets0 = sets@;
    let mut children: Vec<Pair> = Vec::new();
    children.push(nm);
    let mut rest = sets;
    children.append(&mut rest);
    proof {
        assert(children@ =~= seq![nm0] + sets0);
        lemma_pairs_view_index(children@);
        lemma_pairs_view_index(sets0);
        assert forall|i: int| 0 <= i < children@.len() implies pairs_view(children@)[i] == (
        seq![pair_view(nm0)] + pairs_view(sets0))[i] by {
            assert(children@[i] == (seq![nm0] + sets0)[i]);
            if i == 0 {
                assert((seq![nm0] + sets0)[0] == nm0);
                assert((seq![pair_view(nm0)] + pairs_view(sets0))[0] == pair_view(nm0));
            } else {
                assert((seq![nm0] + sets0)[i] == sets0[i - 1]);
                assert((seq![pair_view(nm0)] + pairs_view(sets0))[i] == pairs_view(sets0)[i - 1]);
            }
        }
        assert(pairs_view(children@) =~= seq![pair_view(nm0)] + pairs_view(sets0));
    }
    Pair { rule: Rule::exercise, text: String::new(), children }
}

/// Walks the given lines into `exercise` nodes, mirroring
/// [`spec_assemble`] from the start in state `Outside`.
pub(crate) fn assemble_x(lines: &Vec<String>) -> (r: Result<Vec<Pair>, SyntaxError>)
    requires
        forall|j: int| 0 <= j < lines@.len() ==> (#[trigger] lines@[j])@.len() < usize::MAX,
    ensures
        match r {
            Ok(v) => spec_assemble(lines_view(lines@), 0, BlockState::Outside) == Ok::<
                Seq<PairView>,
                SyntaxErrorView,
            >(pairs_view(v@)),
            Err(e) => spec_assemble(lines_view(lines@), 0, BlockState::Outside) == Err::<
                Seq<PairView>,
                SyntaxErrorView,
            >(e@),
        },
{
    let ghost L = lines_view(lines@);
    let nlines: usize = lines.len();
    let mut out: Vec<Pair> = Vec::new();
    let mut cur_name: Option<Pair> = None;
    let mut cur_sets: Vec<Pair> = Vec::new();
    let mut li: usize = 0;
    proof {
        assert(pairs_view(out@) =~= Seq::<PairView>::empty());
        match spec_assemble(L, 0, BlockState::Outside) {
            Ok(v) => {
                assert(Seq::<PairView>::empty() + v =~= v);
            },
            Err(e) => {},
        }
    }
    while li < nlines
        invariant
            li <= nlines,
            nlines == L.len(),
            L == lines_view(lines@),
            forall|j: int| 0 <= j < lines@.len() ==> (#[trigger] lines@[j])@.len() < usize::MAX,
            cur_name is None ==> cur_sets@.len() == 0,
            spec_assemble(L, 0, BlockState::Outside) == with_prefix(
                pairs_view(out@),
                spec_assemble(L, li as int, st_of(cur_name, cur_sets@)),
            ),
        decreases nlines - li,
    {
        let ls: &str = lines[li].as_str();
        let nl: usize = ls.unicode_len();
        proof {
            assert(L[li as int] == lines@[li as int]@);
        }
        let fc = skip_hws_x(ls, 0, nl);
        if fc == nl {
            // a blank line: closes the open block, if any
            let prev_name = cur_name;
            cur_name = None;
            let prev_sets = cur_sets;
            cur_sets = Vec::new();
            proof {
                assert(pairs_view(cur_sets@) =~= Seq::<PairView>::empty());
            }
            match prev_name {
                None => {},
                Some(nm) => {
                    if prev_sets.len() == 0 {
                        proof {
                            assert(pairs_view(prev_sets@) =~= Seq::<PairView>::empty());
                        }
                        return Err(SyntaxError {
                            line: li + 1,
                            col: fc + 1,
                            expected: expected1(Rule::set),
                        });
                    }
                    let ghost nm0 = nm;
                    let ghost psets0 = prev_sets@;
                    proof {
                        lemma_pairs_view_index(psets0);
                    }
                    let ex = make_exercise(nm, prev_sets);
                    let ghost ex0 = ex;
                    let ghost acc0 = pairs_view(out@);
                    let ghost out0 = out@;
                    out.push(ex);
                    proof {
                        lemma_pairs_view_push(out0, ex0);
                        lemma_with_prefix_push(
                            acc0,
                            pair_view(ex0),
                            spec_assemble(L, li as int + 1, BlockState::Outside),
                        );
                    }
                },
            }
        } else if is_digit_x(ls.get_char(fc)) {
            // a set line: needs an open block
            if cur_name.is_none() {
                return Err(SyntaxError {
                    line: li + 1,
                    col: fc + 1,
                    expected: expected1(Rule::name),
                });
            }
            match set_line_x(ls, fc, nl) {
                Err(e) => {
                    return Err(SyntaxError { line: li + 1, col: e.0 + 1, expected: e.1 });
                },
                Ok(sp) => {
                    let ghost sp0 = sp;
                    let ghost sets0 = cur_sets@;
                    cur_sets.push(sp);
                    proof {
                        lemma_pairs_view_push(sets0, sp0);
                    }
                },
            }
        } else {
            // a name line: closes the open block and opens a new one
            let prev_name = cur_name;
            let prev_sets = cur_sets;
            cur_sets = Vec::new();
            let nm_new = make_name(ls);
            cur_name = Some(nm_new);
            proof {
                assert(pairs_view(cur_sets@) =~= Seq::<PairView>::empty());
            }
            match prev_name {
                None => {},
                Some(nm) => {
                    if prev_sets.len() == 0 {
                        proof {
                            assert(pairs_view(prev_sets@) =~= Seq::<PairView>::empty());
                        }
                        return Err(SyntaxError {
                            line: li + 1,
                            col: fc + 1,
                            expected: expected1(Rule::set),
                        });
                    }
                    let ghost nm0 = nm;
                    let ghost psets0 = prev_sets@;
                    proof {
                        lemma_pairs_view_index(psets0);
                    }
                    let ex = make_exercise(nm, prev_sets);
                    let ghost ex0 = ex;
                    let ghost acc0 = pairs_view(out@);
                    let ghost out0 = out@;
                    out.push(ex);
                    proof {
                        lemma_pairs_view_push(out0, ex0);
                        lemma_with_prefix_push(
                            acc0,
                            pair_view(ex0),
                            spec_assemble(
                                L,
                                li as int + 1,
                                BlockState::Open(name_leaf(L[li as int]), Seq::empty()),
                            ),
                        );
                    }
                },
            }
        }
        li += 1;
    }
    // end of input: close the open block, if any
    match cur_name {
        None => {
            proof {
                assert(pairs_view(out@) + Seq::<PairView>::empty() =~= pairs_view(out@));
            }
            Ok(out)
        },
        Some(nm) => {
            if cur_sets.len() == 0 {
                proof {
                    assert(pairs_view(cur_sets@) =~= Seq::<PairView>::empty());
                }
                if nlines == 0 {
                    return Err(SyntaxError { line: 1, col: 1, expected: expected1(Rule::set) });
                }
                let lastlen = lines[nlines - 1].as_str().unicode_len();
                proof {
                    assert(L[nlines - 1] == lines@[nlines - 1 as int]@);
                }
                return Err(SyntaxError {
                    line: nlines,
                    col: lastlen + 1,
                    expected: expected1(Rule::set),
                });
            }
            let ghost nm0 = nm;
            let ghost psets0 = cur_sets@;
            proof {
                lemma_pairs_view_index(psets0);
            }
            let ex = make_exercise(nm, cur_sets);
            let ghost ex0 = ex;
            let ghost acc0 = pairs_view(out@);
            let ghost out0 = out@;
            out.push(ex);
            proof {
                lemma_pairs_view_push(out0, ex0);
                assert(acc0 + seq![pair_view(ex0)] =~= acc0.push(pair_view(ex0)));
            }
            Ok(out)
        },
    }
}

/// The parse tree of a whole note, mirroring [`spec_workout_tree`].
pub(crate) fn workout_tree_x(input: &str) -> (r: Result<Pair, SyntaxError>)
    requires
        input@.len() < usize::MAX,
    ensures
        match r {
            Ok(p) => spec_workout_tree(input@) == Ok::<PairView, SyntaxErrorView>(p@),
            Err(e) => spec_workout_tree(input@) == Err::<PairView, SyntaxErrorView>(e@),
        },
{
    let lines = split_lines_x(input);
    proof {
        lemma_split_bounds(input@, 0);
        assert forall|j: int| 0 <= j < lines@.len() implies (#[trigger] lines@[j])@.len()
            < usize::MAX by {
            assert(lines_view(lines@)[j] == lines@[j]@);
            assert(split_from(input@, 0)[j].len() <= input@.len());
        }
    }
    match assemble_x(&lines) {
        Err(e) => Err(e),
        Ok(exs) => {
            let ghost exs0 = exs@;
            let p = Pair { rule: Rule::workout, text: String::new(), children: exs };
            Ok(p)
        },
    }
}

} // verus!

verus! {

// ---------------------------------------------------------------------------
// Matching one rule against the start of a text
// ---------------------------------------------------------------------------

/// The `set` nodes of the consecutive set lines from `li` on; the run
/// ends at the first line that is blank, does not start with a digit, or
/// does not match the `set` rule.
pub open spec fn collect_set_lines(lines: Seq<Seq<char>>, li: int) -> Seq<PairView>
    decreases lines.len() - li,
{
    if li < 0 || li >= lines.len() {
        Seq::empty()
    } else {
        let line = lines[li];
        let fc = skip_hws(line, 0);
        if fc == line.len() || !is_digit(line[fc]) {
            Seq::empty()
        } else {
            match spec_set_line(line, fc) {
                Err(e) => Seq::empty(),
                Ok(p) => seq![p] + collect_set_lines(lines, li + 1),
            }
        }
    }
}

/// What matching `rule` against the start of `s` yields: the rule's node,
/// or a syntax error at the position where matching stopped.  The
/// `workout` rule reads the whole text; every other rule reads within the
/// first line (`exercise` reads the first run of lines), and text beyond
/// what the rule matched is left unread.
pub open spec fn spec_parse_rule(rule: Rule, s: Seq<char>) -> Result<PairView, SyntaxErrorView> {
    let lines = split_lines(s);
    let line = lines[0];
    let fc = skip_hws(line, 0);
    match rule {
        Rule::workout => spec_workout_tree(s),
        Rule::weight => if fc < line.len() && is_digit(line[fc]) {
            Ok(leaf(Rule::weight, line.subrange(fc, weight_end(line, fc))))
        } else {
            Err(pos_err(0, fc, seq![Rule::weight]))
        },
        Rule::reps => if fc < line.len() && is_digit(line[fc]) {
            Ok(leaf(Rule::reps, line.subrange(fc, scan_digits(line, fc))))
        } else {
            Err(pos_err(0, fc, seq![Rule::reps]))
        },
        Rule::name => if fc < line.len() && !is_digit(line[fc]) {
            Ok(name_leaf(line))
        } else {
            Err(pos_err(0, fc, seq![Rule::name]))
        },
        Rule::comment => if fc == line.len() {
            Ok(leaf(Rule::comment, Seq::empty()))
        } else {
            Ok(comment_leaf(line, fc))
        },
        Rule::set => match spec_set_line(line, fc) {
            Ok(p) => Ok(p),
            Err((c, exp)) => Err(pos_err(0, c, exp)),
        },
        Rule::exercise => if !(fc < line.len() && !is_digit(line[fc])) {
            Err(pos_err(0, fc, seq![Rule::name]))
        } else {
            let sets = collect_set_lines(lines, 1);
            if sets.len() == 0 {
                if lines.len() >= 2 {
                    Err(pos_err(1, skip_hws(lines[1], 0), seq![Rule::set]))
                } else {
                    Err(pos_err(0, line.len() as int, seq![Rule::set]))
                }
            } else {
                Ok(exercise_node(name_leaf(line), sets))
            }
        },
    }
}

/// Matches `rule` against the start of `input`, mirroring
/// [`spec_parse_rule`]; a grammar failure comes back as the syntax-error
/// kind of [`Error`].
pub fn parse_rule(rule: Rule, input: &str) -> (r: Result<Pair, Error>)
    requires
        input@.len() < usize::MAX,
    ensures
        ({
            let sr = spec_parse_rule(rule, input@);
            match r {
                Ok(p) => sr == Ok::<PairView, SyntaxErrorView>(p@),
                Err(e) => match sr {
                    Err(se) => e@ == crate::error::ErrorView::ParsingError(se),
                    Ok(p) => false,
                },
            }
        }),
{
    if rule == Rule::workout {
        return match workout_tree_x(input) {
            Ok(p) => Ok(p),
            Err(e) => Err(Error::ParsingError(e)),
        };
    }
    let lines = split_lines_x(input);
    proof {
        lemma_split_bounds(input@, 0);
        assert forall|j: int| 0 <= j < lines@.len() implies (#[trigger] lines@[j])@.len()
            < usize::MAX by {
            assert(lines_view(lines@)[j] == lines@[j]@);
            assert(split_from(input@, 0)[j].len() <= input@.len());
        }
        assert(lines_view(lines@)[0] == lines@[0]@);
    }
    let ls: &str = lines[0].as_str();
    let nl: usize = ls.unicode_len();
    let fc = skip_hws_x(ls, 0, nl);
    if rule == Rule::weight {
        if fc < nl && is_digit_x(ls.get_char(fc)) {
            let d1 = scan_digits_x(ls, fc, nl);
            let wend: usize = if d1 < nl && ls.get_char(d1) == '.' && d1 + 1 < nl
                && is_digit_x(ls.get_char(d1 + 1)) {
                scan_digits_x(ls, d1 + 1, nl)
            } else {
                d1
            };
            proof {
                lemma_set_line_positions(ls@, fc as int);
            }
            Ok(make_leaf(Rule::weight, ls, fc, wend))
        } else {
            Err(Error::ParsingError(SyntaxError {
                line: 1,
                col: fc + 1,
                expected: expected1(Rule::weight),
            }))
        }
    } else if rule == Rule::reps {
        if fc < nl && is_digit_x(ls.get_char(fc)) {
            let rend = scan_digits_x(ls, fc, nl);
            Ok(make_leaf(Rule::reps, ls, fc, rend))
        } else {
            Err(Error::ParsingError(SyntaxError {
                line: 1,
                col: fc + 1,
                expected: expected1(Rule::reps),
            }))
        }
    } else if rule == Rule::name {
        if fc < nl && !is_digit_x(ls.get_char(fc)) {
            Ok(make_name(ls))
        } else {
            Err(Error::ParsingError(SyntaxError {
                line: 1,
                col: fc + 1,
                expected: expected1(Rule::name),
            }))
        }
    } else if rule == Rule::comment {
        if fc == nl {
            let p = Pair { rule: Rule::comment, text: String::new(), children: Vec::new() };
            proof {
                assert(pairs_view(p.children@) =~= Seq::<PairView>::empty());
            }
            Ok(p)
        } else {
            Ok(make_comment(ls, fc, nl))
        }
    } else if rule == Rule::set {
        match set_line_x(ls, fc, nl) {
            Ok(p) => Ok(p),
            Err(e) => Err(Error::ParsingError(SyntaxError {
                line: 1,
                col: e.0 + 1,
                expected: e.1,
            })),
        }
    } else {
        // the exercise rule: a name line, then at least one set line
        if !(fc < nl && !is_digit_x(ls.get_char(fc))) {
            return Err(Error::ParsingError(SyntaxError {
                line: 1,
                col: fc + 1,
                expected: expected1(Rule::name),
            }));
        }
        let nm = make_name(ls);
        let ghost L = lines_view(lines@);
        let nlines = lines.len();
        let mut sets: Vec<Pair> = Vec::new();
        let mut li: usize = 1;
        let mut stop = false;
        proof {
            assert(pairs_view(sets@) =~= Seq::<PairView>::empty());
            assert(Seq::<PairView>::empty() + collect_set_lines(L, 1) =~= collect_set_lines(
                L,
                1,
            ));
        }
        while li < nlines && !stop
            invariant
                1 <= li <= nlines,
                nlines == L.len(),
                L == lines_view(lines@),
                forall|j: int|
                    0 <= j < lines@.len() ==> (#[trigger] lines@[j])@.len() < usize::MAX,
                collect_set_lines(L, 1) == pairs_view(sets@) + collect_set_lines(L, li as int),
                stop ==> collect_set_lines(L, li as int) == Seq::<PairView>::empty(),
            decreases nlines - li, (if stop { 0int } else { 1int }),
        {
            proof {
                assert(L[li as int] == lines@[li as int]@);
            }
            let lsi: &str = lines[li].as_str();
            let nli: usize = lsi.unicode_len();
            let fci = skip_hws_x(lsi, 0, nli);
            if fci == nli || !is_digit_x(lsi.get_char(fci)) {
                stop = true;
            } else {
                match set_line_x(lsi, fci, nli) {
                    Err(_) => {
                        stop = true;
                    },
                    Ok(p) => {
                        let ghost p0 = p;
                        let ghost sets0 = sets@;
                        let ghost acc0 = pairs_view(sets@);
                        sets.push(p);
                        proof {
                            lemma_pairs_view_push(sets0, p0);
                            assert(collect_set_lines(L, li as int) == seq![pair_view(p0)]
                                + collect_set_lines(L, li as int + 1));
                            assert(acc0 + (seq![pair_view(p0)] + collect_set_lines(
                                L,
                                li as int + 1,
                            )) =~= acc0.push(pair_view(p0)) + collect_set_lines(L, li as int + 1));
                        }
                        li += 1;
                    },
                }
            }
        }
        proof {
            assert(collect_set_lines(L, li as int) =~= Seq::<PairView>::empty());
            assert(pairs_view(sets@) + Seq::<PairView>::empty() =~= pairs_view(sets@));
        }
        if sets.len() == 0 {
            proof {
                assert(pairs_view(sets@) =~= Seq::<PairView>::empty());
                lemma_pairs_view_index(sets@);
            }
            if nlines >= 2 {
                proof {
                    assert(L[1] == lines@[1]@);
                }
                let ls1: &str = lines[1].as_str();
                let nl1: usize = ls1.unicode_len();
                let fc1 = skip_hws_x(ls1, 0, nl1);
                Err(Error::ParsingError(SyntaxError {
                    line: 2,
                    col: fc1 + 1,
                    expected: expected1(Rule::set),
                }))
            } else {
                Err(Error::ParsingError(SyntaxError {
                    line: 1,
                    col: nl + 1,
                    expected: expected1(Rule::set),
                }))
            }
        } else {
            proof {
                lemma_pairs_view_index(sets@);
            }
            Ok(make_exercise(nm, sets))
        }
    }
}

} // verus!
