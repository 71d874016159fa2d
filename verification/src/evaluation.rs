//! The feedback signal: how many positions of a guess match the secret
//! exactly, and how many symbols are right but misplaced.

use vstd::prelude::*;
use vstd::string::StringExecFns;

verus! {

/// The feedback returned for one guess: `correct_match` counts positions
/// where guess and secret share the same symbol, `color_present` counts
/// symbols that appear in both but are credited only once the exact matches
/// have consumed their positions.
#[derive(Debug, Clone, Copy, PartialEq, Eq, Structural)]
pub struct Evaluation {
    pub correct_match: u8,
    pub color_present: u8,
}

impl Evaluation {
    pub fn new(correct_match: u8, color_present: u8) -> (r: Self)
        ensures
            r.correct_match == correct_match,
            r.color_present == color_present,
    {
        Evaluation { correct_match, color_present }
    }

    pub fn get_correct_match(&self) -> (r: u8)
        ensures
            r == self.correct_match,
    {
        self.correct_match
    }

    pub fn get_color_present(&self) -> (r: u8)
        ensures
            r == self.color_present,
    {
        self.color_present
    }

    /// The textual rendering of the feedback: the exact matches as black
    /// squares, then the misplaced symbols as white squares.
    ///
    /// A count above the sequence length has no rendering; such feedback
    /// never arises in a game.
    pub fn to_display_string(&self) -> (r: String)
        requires
            self.correct_match <= 4,
            self.color_present <= 4,
        ensures
            r@ == spec_eval_display(self.correct_match as int, self.color_present as int),
    {
        let mut s = String::new();
        s.append("\u{1b}[30m");
        let mut k: u8 = 0;
        while k < self.correct_match
            invariant
                k <= self.correct_match,
                s@ == "\u{1b}[30m"@ + squares(k as int),
            decreases self.correct_match - k,
        {
            s.append("\u{2589}");
            k = k + 1;
        }
        s.append("\u{1b}[37m");
        let mut k2: u8 = 0;
        while k2 < self.color_present
            invariant
                k2 <= self.color_present,
                s@ == "\u{1b}[30m"@ + squares(self.correct_match as int) + "\u{1b}[37m"@
                    + squares(k2 as int),
            decreases self.color_present - k2,
        {
            s.append("\u{2589}");
            k2 = k2 + 1;
        }
        s.append("\u{1b}[0m");
        s
    }
}

/// A row of `n` square characters.
pub open spec fn squares(n: int) -> Seq<char>
    decreases n,
{
    if n <= 0 {
        Seq::empty()
    } else {
        squares(n - 1) + "\u{2589}"@
    }
}

/// The textual rendering of a feedback value: black squares for the exact
/// matches, white squares for the misplaced symbols.
pub open spec fn spec_eval_display(correct: int, present: int) -> Seq<char> {
    "\u{1b}[30m"@ + squares(correct) + "\u{1b}[37m"@ + squares(present) + "\u{1b}[0m"@
}

} // verus!
