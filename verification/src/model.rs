//! The domain model a parsed note turns into.

use vstd::prelude::*;

verus! {

/// A weight, kept exactly as the decimal numeral in the note gives it:
/// the value is `mantissa / 10^scale`.  `"35.5"` is held as mantissa 355
/// with scale 1, `"35"` as mantissa 35 with scale 0.  Keeping the digits
/// instead of a floating-point value makes the parse lossless.
#[derive(Debug, Clone, Copy, PartialEq, Eq, Structural)]
pub struct Weight {
    /// The digits of the numeral, read as one integer.
    pub mantissa: u64,
    /// How many of those digits lie behind the decimal point.
    pub scale: usize,
}

/// One performed unit of lifting: a weight and how often it was lifted.
#[derive(Debug, Clone, Copy, PartialEq, Eq, Structural)]
pub struct LiftSet {
    /// The weight used for this set.
    pub weight: Weight,
    /// The number of repetitions performed for this set.
    pub n_reps: i32,
}

/// One set line of an exercise block: the block's name, the sets chained
/// on that line (several when the line is a superset), and the line's
/// trailing comment, if any.
#[derive(Debug, Clone, PartialEq)]
pub struct Exercise {
    /// The name of the exercise, from the block's name line.
    pub name: String,
    /// The sets of this line, in the order they were written.
    pub sets: Vec<LiftSet>,
    /// The free-text comment trailing the line, trimmed.
    pub comment: Option<String>,
}

/// The mathematical shape of an [`Exercise`].
pub struct ExerciseView {
    pub name: Seq<char>,
    pub sets: Seq<LiftSet>,
    pub comment: Option<Seq<char>>,
}

impl View for Exercise {
    type V = ExerciseView;

    open spec fn view(&self) -> ExerciseView {
        ExerciseView {
            name: self.name@,
            sets: self.sets@,
            comment: match self.comment {
                Some(c) => Some(c@),
                None => None,
            },
        }
    }
}

/// The views of a sequence of exercises, element by element.
pub open spec fn exercises_view(v: Seq<Exercise>) -> Seq<ExerciseView> {
    v.map_values(|e: Exercise| e@)
}

} // verus!
