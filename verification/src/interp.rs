//! The tree interpreter: walking a parse tree into exercise records.
//!
//! The interpreter re-checks the rule of every node it visits instead of
//! trusting the grammar, so that the two layers can be edited apart
//! without one silently breaking the other: a wrong rule where another
//! was expected is a typed error, never an assumed invariant.

use vstd::prelude::*;
use vstd::string::*;
use crate::error::{Error, ErrorView};
use crate::grammar::{spec_workout_tree, workout_tree_x};
use crate::model::{exercises_view, Exercise, ExerciseView, LiftSet};
use crate::num::{parse_reps_x, parse_weight_x, spec_parse_reps, spec_parse_weight};
use crate::scan::{spec_trim, trim_x};
use crate::tree::{lemma_pairs_view_index, pair_view, Pair, PairView, Rule};

verus! {

/// The view of an optional comment string.
pub open spec fn opt_text_view(c: Option<String>) -> Option<Seq<char>> {
    match c {
        Some(t) => Some(t@),
        None => None,
    }
}

/// One walk over a `set` chain: the sets gathered so far, and the one
/// comment slot, filled whenever a `comment` node is met.  The walk moves
/// to the node's continuation child, so a chained line contributes its
/// sets in source order under a single comment.
pub open spec fn spec_walk_sets(
    p: PairView,
    sets: Seq<LiftSet>,
    comment: Option<Seq<char>>,
) -> Result<(Seq<LiftSet>, Option<Seq<char>>), ErrorView>
    decreases p,
{
    if p.rule == Rule::comment {
        let c = Some(spec_trim(p.text));
        if p.children.len() == 0 {
            Ok((sets, c))
        } else {
            spec_walk_sets(p.children[0], sets, c)
        }
    } else if p.rule == Rule::set {
        if p.children.len() < 1 {
            Err(ErrorView::ExpectedRule(Rule::weight))
        } else {
            match spec_parse_weight(spec_trim(p.children[0].text)) {
                Err(t) => Err(ErrorView::ParseFloatError(t)),
                Ok(w) => {
                    if p.children.len() < 2 {
                        Err(ErrorView::ExpectedRule(Rule::reps))
                    } else {
                        match spec_parse_reps(spec_trim(p.children[1].text)) {
                            Err(t) => Err(ErrorView::ParseIntError(t)),
                            Ok(nr) => {
                                let sets2 = sets.push(LiftSet { weight: w, n_reps: nr });
                                if p.children.len() >= 3 {
                                    spec_walk_sets(p.children[2], sets2, comment)
                                } else {
                                    Ok((sets2, comment))
                                }
                            },
                        }
                    }
                },
            }
        }
    } else {
        Err(ErrorView::UnexpectedRule(p.rule))
    }
}

/// What interpreting a `set` node under the given exercise name yields:
/// one exercise record holding the chain's sets and its one optional
/// comment, or the first error of the walk.
pub open spec fn spec_parse_set(name: Seq<char>, p: PairView) -> Result<ExerciseView, ErrorView> {
    if p.rule != Rule::set {
        Err(ErrorView::ExpectedRule(Rule::set))
    } else {
        match spec_walk_sets(p, Seq::empty(), None) {
            Err(e) => Err(e),
            Ok((sets, comment)) => Ok(ExerciseView { name, sets, comment }),
        }
    }
}

/// Interprets the `set` children of an `exercise` node from `i` on, each
/// into one record under the shared name; other rules are passed over.
pub open spec fn spec_collect_sets(name: Seq<char>, children: Seq<PairView>, i: int) -> Result<
    Seq<ExerciseView>,
    ErrorView,
>
    decreases children.len() - i,
{
    if i < 0 || i >= children.len() {
        Ok(Seq::empty())
    } else if children[i].rule != Rule::set {
        spec_collect_sets(name, children, i + 1)
    } else {
        match spec_parse_set(name, children[i]) {
            Err(e) => Err(e),
            Ok(ex) => match spec_collect_sets(name, children, i + 1) {
                Err(e) => Err(e),
                Ok(rest) => Ok(seq![ex] + rest),
            },
        }
    }
}

/// What interpreting an `exercise` node yields: one record per `set`
/// line of the block, each carrying the block's name, in source order.
pub open spec fn spec_get_exercise(p: PairView) -> Result<Seq<ExerciseView>, ErrorView> {
    if p.rule != Rule::exercise {
        Err(ErrorView::ExpectedRule(Rule::exercise))
    } else if p.children.len() == 0 {
        Err(ErrorView::ExpectedRule(Rule::name))
    } else if p.children[0].rule != Rule::name {
        Err(ErrorView::ExpectedRule(Rule::name))
    } else {
        spec_collect_sets(p.children[0].text, p.children, 1)
    }
}

/// Interprets the `exercise` children of a `workout` node from `i` on,
/// flattening their record lists into one ordered sequence.
pub open spec fn spec_collect_exercises(children: Seq<PairView>, i: int) -> Result<
    Seq<ExerciseView>,
    ErrorView,
>
    decreases children.len() - i,
{
    if i < 0 || i >= children.len() {
        Ok(Seq::empty())
    } else if children[i].rule != Rule::exercise {
        spec_collect_exercises(children, i + 1)
    } else {
        match spec_get_exercise(children[i]) {
            Err(e) => Err(e),
            Ok(exs) => match spec_collect_exercises(children, i + 1) {
                Err(e) => Err(e),
                Ok(rest) => Ok(exs + rest),
            },
        }
    }
}

/// What interpreting a `workout` node yields.
pub open spec fn spec_interp_workout(w: PairView) -> Result<Seq<ExerciseView>, ErrorView> {
    if w.rule != Rule::workout {
        Err(ErrorView::ExpectedRule(Rule::workout))
    } else {
        spec_collect_exercises(w.children, 0)
    }
}

/// What parsing a whole note yields: the records of every set line of
/// every block, in source order, or the first error.
pub open spec fn spec_parse_workout(s: Seq<char>) -> Result<Seq<ExerciseView>, ErrorView> {
    match spec_workout_tree(s) {
        Err(e) => Err(ErrorView::ParsingError(e)),
        Ok(w) => spec_interp_workout(w),
    }
}

/// Records already emitted, put before what the rest of a walk yields.
pub open spec fn with_records(acc: Seq<ExerciseView>, r: Result<Seq<ExerciseView>, ErrorView>) -> Result<
    Seq<ExerciseView>,
    ErrorView,
>
    {
    match r {
        Ok(v) => Ok(acc + v),
        Err(e) => Err(e),
    }
}

/// Emitting records and then the rest is the same as emitting the
/// concatenation.
proof fn lemma_with_records_concat(
    acc: Seq<ExerciseView>,
    xs: Seq<ExerciseView>,
    r: Result<Seq<ExerciseView>, ErrorView>,
)
    ensures
        with_records(acc, with_records(xs, r)) == with_records(acc + xs, r),
{
    match r {
        Ok(v) => {
            assert(acc + (xs + v) =~= (acc + xs) + v);
        },
        Err(e) => {},
    }
}

/// The chain walk of [`spec_walk_sets`], by reference.
fn walk_sets_x(c: &Pair, sets: Vec<LiftSet>, comment: Option<String>) -> (r: Result<
    (Vec<LiftSet>, Option<String>),
    Error,
>)
    ensures
        match r {
            Ok(out) => spec_walk_sets(c@, sets@, opt_text_view(comment)) == Ok::<
                (Seq<LiftSet>, Option<Seq<char>>),
                ErrorView,
            >((out.0@, opt_text_view(out.1))),
            Err(e) => spec_walk_sets(c@, sets@, opt_text_view(comment)) == Err::<
                (Seq<LiftSet>, Option<Seq<char>>),
                ErrorView,
            >(e@),
        },
    decreases *c,
{
    proof {
        lemma_pairs_view_index(c.children@);
    }
    if c.as_rule() == Rule::comment {
        let tc = trim_x(c.text.as_str());
        let c2 = Some(tc);
        if c.children.len() == 0 {
            Ok((sets, c2))
        } else {
            walk_sets_x(&c.children[0], sets, c2)
        }
    } else if c.as_rule() == Rule::set {
        if c.children.len() == 0 {
            return Err(Error::ExpectedRule(Rule::weight));
        }
        let wtext = trim_x(c.children[0].text.as_str());
        match parse_weight_x(wtext.as_str()) {
            Err(_) => Err(Error::ParseFloatError(wtext)),
            Ok(w) => {
                if c.children.len() < 2 {
                    return Err(Error::ExpectedRule(Rule::reps));
                }
                let rtext = trim_x(c.children[1].text.as_str());
                match parse_reps_x(rtext.as_str()) {
                    Err(_) => Err(Error::ParseIntError(rtext)),
                    Ok(nr) => {
                        let mut sets2 = sets;
                        sets2.push(LiftSet { weight: w, n_reps: nr });
                        if c.children.len() >= 3 {
                            walk_sets_x(&c.children[2], sets2, comment)
                        } else {
                            Ok((sets2, comment))
                        }
                    },
                }
            },
        }
    } else {
        Err(Error::UnexpectedRule(c.as_rule()))
    }
}

/// The walk of [`spec_parse_set`], by reference.
fn parse_set_ref(name: String, pair: &Pair) -> (r: Result<Exercise, Error>)
    ensures
        match r {
            Ok(ex) => spec_parse_set(name@, pair@) == Ok::<ExerciseView, ErrorView>(ex@),
            Err(e) => spec_parse_set(name@, pair@) == Err::<ExerciseView, ErrorView>(e@),
        },
{
    if !(pair.as_rule() == Rule::set) {
        return Err(Error::ExpectedRule(Rule::set));
    }
    let empty_sets: Vec<LiftSet> = Vec::new();
    proof {
        assert(empty_sets@ =~= Seq::<LiftSet>::empty());
    }
    match walk_sets_x(pair, empty_sets, None) {
        Err(e) => Err(e),
        Ok(out) => Ok(Exercise { name, sets: out.0, comment: out.1 }),
    }
}

/// Interprets a `set` node under the given exercise name: one exercise
/// record per chained line, as [`spec_parse_set`] states.
pub fn parse_set(name: String, pair: Pair) -> (r: Result<Exercise, Error>)
    ensures
        match r {
            Ok(ex) => spec_parse_set(name@, pair@) == Ok::<ExerciseView, ErrorView>(ex@),
            Err(e) => spec_parse_set(name@, pair@) == Err::<ExerciseView, ErrorView>(e@),
        },
{
    parse_set_ref(name, &pair)
}

/// The walk of [`spec_get_exercise`], by reference.
fn get_exercise_ref(pair: &Pair) -> (r: Result<Vec<Exercise>, Error>)
    ensures
        match r {
            Ok(v) => spec_get_exercise(pair@) == Ok::<Seq<ExerciseView>, ErrorView>(
                exercises_view(v@),
            ),
            Err(e) => spec_get_exercise(pair@) == Err::<Seq<ExerciseView>, ErrorView>(e@),
        },
{
    proof {
        lemma_pairs_view_index(pair.children@);
    }
    if !(pair.as_rule() == Rule::exercise) {
        return Err(Error::ExpectedRule(Rule::exercise));
    }
    if pair.children.len() == 0 {
        return Err(Error::ExpectedRule(Rule::name));
    }
    if !(pair.children[0].as_rule() == Rule::name) {
        return Err(Error::ExpectedRule(Rule::name));
    }
    let name: String = pair.children[0].text.clone();
    let ghost ch = pair@.children;
    let mut out: Vec<Exercise> = Vec::new();
    let mut i: usize = 1;
    proof {
        assert(exercises_view(out@) =~= Seq::<ExerciseView>::empty());
        match spec_collect_sets(name@, ch, 1) {
            Ok(v) => {
                assert(Seq::<ExerciseView>::empty() + v =~= v);
            },
            Err(e) => {},
        }
    }
    while i < pair.children.len()
        invariant
            1 <= i <= pair.children@.len(),
            pair@.rule == Rule::exercise,
            pair@.children.len() > 0,
            pair@.children[0].rule == Rule::name,
            ch == pair@.children,
            ch.len() == pair.children@.len(),
            forall|j: int| 0 <= j < ch.len() ==> ch[j] == pair_view(#[trigger] pair.children@[j]),
            name@ == ch[0].text,
            spec_collect_sets(name@, ch, 1) == with_records(
                exercises_view(out@),
                spec_collect_sets(name@, ch, i as int),
            ),
        decreases pair.children@.len() - i,
    {
        let c = &pair.children[i];
        proof {
            assert(ch[i as int] == pair_view(pair.children@[i as int]));
        }
        if c.as_rule() == Rule::set {
            match parse_set_ref(name.clone(), c) {
                Err(e) => {
                    proof {
                        assert(spec_collect_sets(name@, ch, i as int) == Err::<
                            Seq<ExerciseView>,
                            ErrorView,
                        >(e@));
                    }
                    return Err(e);
                },
                Ok(ex) => {
                    let ghost ex0 = ex@;
                    let ghost acc0 = exercises_view(out@);
                    out.push(ex);
                    proof {
                        assert(exercises_view(out@) =~= acc0.push(ex0));
                        lemma_with_records_concat(
                            acc0,
                            seq![ex0],
                            spec_collect_sets(name@, ch, i as int + 1),
                        );
                        assert(acc0.push(ex0) =~= acc0 + seq![ex0]);
                    }
                },
            }
        }
        i += 1;
    }
    proof {
        match spec_collect_sets(name@, ch, i as int) {
            Ok(v) => {
                assert(exercises_view(out@) + v =~= exercises_view(out@));
            },
            Err(e) => {},
        }
    }
    Ok(out)
}

/// Interprets an `exercise` node: one record per `set` line of the
/// block, each under the block's name, as [`spec_get_exercise`] states.
pub fn get_exercise_from_pairs(pair: Pair) -> (r: Result<Vec<Exercise>, Error>)
    ensures
        match r {
            Ok(v) => spec_get_exercise(pair@) == Ok::<Seq<ExerciseView>, ErrorView>(
                exercises_view(v@),
            ),
            Err(e) => spec_get_exercise(pair@) == Err::<Seq<ExerciseView>, ErrorView>(e@),
        },
{
    get_exercise_ref(&pair)
}

/// The walk of [`spec_interp_workout`], by reference.
fn interp_workout(w: &Pair) -> (r: Result<Vec<Exercise>, Error>)
    ensures
        match r {
            Ok(v) => spec_interp_workout(w@) == Ok::<Seq<ExerciseView>, ErrorView>(
                exercises_view(v@),
            ),
            Err(e) => spec_interp_workout(w@) == Err::<Seq<ExerciseView>, ErrorView>(e@),
        },
{
    proof {
        lemma_pairs_view_index(w.children@);
    }
    if !(w.as_rule() == Rule::workout) {
        return Err(Error::ExpectedRule(Rule::workout));
    }
    let ghost ch = w@.children;
    let mut out: Vec<Exercise> = Vec::new();
    let mut i: usize = 0;
    proof {
        assert(exercises_view(out@) =~= Seq::<ExerciseView>::empty());
        match spec_collect_exercises(ch, 0) {
            Ok(v) => {
                assert(Seq::<ExerciseView>::empty() + v =~= v);
            },
            Err(e) => {},
        }
    }
    while i < w.children.len()
        invariant
            0 <= i <= w.children@.len(),
            w@.rule == Rule::workout,
            ch == w@.children,
            ch.len() == w.children@.len(),
            forall|j: int| 0 <= j < ch.len() ==> ch[j] == pair_view(#[trigger] w.children@[j]),
            spec_collect_exercises(ch, 0) == with_records(
                exercises_view(out@),
                spec_collect_exercises(ch, i as int),
            ),
        decreases w.children@.len() - i,
    {
        let c = &w.children[i];
        proof {
            assert(ch[i as int] == pair_view(w.children@[i as int]));
        }
        if c.as_rule() == Rule::exercise {
            match get_exercise_ref(c) {
                Err(e) => {
                    proof {
                        assert(spec_collect_exercises(ch, i as int) == Err::<
                            Seq<ExerciseView>,
                            ErrorView,
                        >(e@));
                    }
                    return Err(e);
                },
                Ok(mut exs) => {
                    let ghost exs0 = exercises_view(exs@);
                    let ghost acc0 = exercises_view(out@);
                    out.append(&mut exs);
                    proof {
                        assert(exercises_view(out@) =~= acc0 + exs0);
                        lemma_with_records_concat(
                            acc0,
                            exs0,
                            spec_collect_exercises(ch, i as int + 1),
                        );
                    }
                },
            }
        }
        i += 1;
    }
    proof {
        match spec_collect_exercises(ch, i as int) {
            Ok(v) => {
                assert(exercises_view(out@) + v =~= exercises_view(out@));
            },
            Err(e) => {},
        }
    }
    Ok(out)
}

/// Parses a whole note into its exercise records: the grammar builds the
/// parse tree and the interpreter walks it, as [`spec_parse_workout`]
/// states.  An empty note is a valid note: it yields no records, not an
/// error.  The note must have fewer characters than the address space
/// holds.
pub fn parse_workout(input: &str) -> (r: Result<Vec<Exercise>, Error>)
    requires
        input@.len() < usize::MAX,
    ensures
        match r {
            Ok(v) => spec_parse_workout(input@) == Ok::<Seq<ExerciseView>, ErrorView>(
                exercises_view(v@),
            ),
            Err(e) => spec_parse_workout(input@) == Err::<Seq<ExerciseView>, ErrorView>(e@),
        },
        input@.len() == 0 ==> r is Ok,
{
    proof {
        if input@.len() == 0 {
            assert(input@ =~= Seq::<char>::empty());
            crate::laws::lemma_empty_note_yields_no_records();
        }
    }
    match workout_tree_x(input) {
        Err(e) => Err(Error::ParsingError(e)),
        Ok(w) => interp_workout(&w),
    }
}

} // verus!
