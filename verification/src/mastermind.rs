//! The game session: one secret sequence, fixed at construction, and an
//! append-only history of rounds.  Submitting a guess is the only mutating
//! operation; the feedback it returns is the only information a strategy
//! may use about the secret.

use vstd::prelude::*;
use vstd::string::StringExecFns;

use crate::colors::{color_of_index, Colors};
use crate::evaluation::Evaluation;
use crate::mastermind_state::{spec_state_display, MastermindState, Values, NUM_ELEMENTS};
use crate::matching::{
    color_matches, exact_matches, lemma_exact_full, lemma_feedback_bounded, lemma_self_match,
};

verus! {

/// The answer to one submitted guess: the game is solved, or the guess was
/// wrong and earned this feedback.
#[derive(Debug, Clone, Copy, PartialEq, Eq, Structural)]
pub enum GuessStatus {
    Success,
    Incorrect(Evaluation),
}

/// A game: the secret round (with empty feedback) and the ordered history
/// of guessed rounds, insertion order, never reordered or removed.
#[derive(Debug)]
pub struct Mastermind {
    pub initial: MastermindState,
    pub guesses: Vec<MastermindState>,
}

/// The feedback a guess earns against a secret, as a feedback value.
pub open spec fn spec_feedback(secret: Seq<Colors>, guess: Seq<Colors>) -> Evaluation {
    Evaluation {
        correct_match: exact_matches(secret, guess) as u8,
        color_present: color_matches(secret, guess) as u8,
    }
}

impl Mastermind {
    /// Every recorded round carries exactly the feedback its sequence earns
    /// against the secret, and the secret round itself is unevaluated.
    pub open spec fn wf(&self) -> bool {
        &&& self.initial.eval == (Evaluation { correct_match: 0, color_present: 0 })
        &&& forall|k: int|
            0 <= k < self.guesses@.len() ==> (#[trigger] self.guesses@[k]).eval == spec_feedback(
                self.initial.values@,
                self.guesses@[k].values@,
            )
    }

    /// The hidden sequence of this game.
    pub open spec fn secret(&self) -> Seq<Colors> {
        self.initial.values@
    }

    /// A fresh game whose secret is drawn from the given entropy words, one
    /// per position; the history is empty.
    pub fn new(raws: [u64; NUM_ELEMENTS]) -> (r: Self)
        ensures
            r.wf(),
            r.guesses@.len() == 0,
            forall|k: int| 0 <= k < NUM_ELEMENTS ==> r.secret()[k] == color_of_index(
                raws@[k] as int % 6,
            ),
    {
        Mastermind {
            initial: MastermindState::new_random_state(raws),
            guesses: Vec::<MastermindState>::new(),
        }
    }

    /// A fresh game with a known secret, for tests and setup; the history
    /// is empty.
    pub fn new_with_state(values: Values) -> (r: Self)
        ensures
            r.wf(),
            r.guesses@.len() == 0,
            r.secret() == values@,
    {
        Mastermind {
            initial: MastermindState::new_initial(values),
            guesses: Vec::<MastermindState>::new(),
        }
    }

    /// Submits one guess: evaluates it against the secret, appends the
    /// round to the history, and answers `Success` exactly when every
    /// position matched — that is, exactly when the guess is the secret.
    pub fn guess(&mut self, values: Values) -> (r: GuessStatus)
        ensures
            final(self).initial == old(self).initial,
            final(self).guesses@ == old(self).guesses@.push(
                MastermindState { values, eval: spec_feedback(old(self).secret(), values@) },
            ),
            r == (if values@ =~= old(self).secret() {
                GuessStatus::Success
            } else {
                GuessStatus::Incorrect(spec_feedback(old(self).secret(), values@))
            }),
            old(self).wf() ==> final(self).wf(),
    {
        proof {
            lemma_feedback_bounded(self.initial.values@, values@);
        }
        let mmstate = self.initial.new_diff_state(values);
        self.guesses.push(mmstate);
        let diff = mmstate.get_evaluation();
        if diff.get_correct_match() as usize == NUM_ELEMENTS {
            proof {
                lemma_exact_full(self.initial.values@, values@, NUM_ELEMENTS as int);
            }
            GuessStatus::Success
        } else {
            proof {
                if values@ =~= self.initial.values@ {
                    lemma_self_match(self.initial.values@);
                }
            }
            GuessStatus::Incorrect(diff)
        }
    }

    pub fn get_initial(&self) -> (r: MastermindState)
        ensures
            r == self.initial,
    {
        self.initial
    }

    /// A copy of the history, in insertion order.
    pub fn get_guesses(&self) -> (r: Vec<MastermindState>)
        ensures
            r@ == self.guesses@,
    {
        let mut out = Vec::<MastermindState>::new();
        let mut i: usize = 0;
        while i < self.guesses.len()
            invariant
                i <= self.guesses@.len(),
                out@ == self.guesses@.take(i as int),
            decreases self.guesses@.len() - i,
        {
            out.push(self.guesses[i]);
            proof {
                assert(out@ =~= self.guesses@.take(i + 1));
            }
            i = i + 1;
        }
        proof {
            assert(self.guesses@.take(self.guesses@.len() as int) =~= self.guesses@);
        }
        out
    }

    /// The textual rendering of the game: its secret round.
    pub fn to_display_string(&self) -> (r: String)
        requires
            self.initial.eval.correct_match <= NUM_ELEMENTS,
            self.initial.eval.color_present <= NUM_ELEMENTS,
        ensures
            r@ == spec_state_display(self.initial),
    {
        self.initial.to_display_string()
    }
}

impl GuessStatus {
    /// The textual rendering of the answer, naming the feedback counts for
    /// a wrong guess.
    pub fn to_display_string(&self) -> (r: String)
        ensures
            r@ == spec_status_display(*self),
    {
        match *self {
            GuessStatus::Success => "Success".to_owned(),
            GuessStatus::Incorrect(e) => {
                let mut s = "Incorrect(Evaluation { correct_match: ".to_owned();
                let cm = decimal_string(e.correct_match);
                s.append(cm.as_str());
                s.append(", color_present: ");
                let cp = decimal_string(e.color_present);
                s.append(cp.as_str());
                s.append(" })");
                s
            },
        }
    }
}

/// A prefix of a round history stays a prefix when one more round is
/// appended.
pub proof fn lemma_prefix_push(a: Seq<MastermindState>, b: Seq<MastermindState>)
    requires
        a.is_prefix_of(b),
    ensures
        forall|x: MastermindState| a.is_prefix_of(#[trigger] b.push(x)),
{
    assert forall|x: MastermindState| a.is_prefix_of(#[trigger] b.push(x)) by {
        assert(b.push(x).take(a.len() as int) =~= b.take(a.len() as int));
    }
}

/// The textual rendering of a guess answer.
pub open spec fn spec_status_display(st: GuessStatus) -> Seq<char> {
    match st {
        GuessStatus::Success => "Success"@,
        GuessStatus::Incorrect(e) => "Incorrect(Evaluation { correct_match: "@ + spec_decimal(
            e.correct_match as int,
        ) + ", color_present: "@ + spec_decimal(e.color_present as int) + " })"@,
    }
}

/// The numeral naming one decimal digit.
pub open spec fn digit_seq(d: int) -> Seq<char> {
    if d == 0 {
        "0"@
    } else if d == 1 {
        "1"@
    } else if d == 2 {
        "2"@
    } else if d == 3 {
        "3"@
    } else if d == 4 {
        "4"@
    } else if d == 5 {
        "5"@
    } else if d == 6 {
        "6"@
    } else if d == 7 {
        "7"@
    } else if d == 8 {
        "8"@
    } else {
        "9"@
    }
}

/// The decimal numeral of a nonnegative number.
pub open spec fn spec_decimal(n: int) -> Seq<char>
    decreases n,
{
    if n < 10 {
        digit_seq(n)
    } else {
        spec_decimal(n / 10) + digit_seq(n % 10)
    }
}

/// One decimal digit as text.
fn digit_string(d: u8) -> (r: &'static str)
    requires
        d <= 9,
    ensures
        r@ == digit_seq(d as int),
{
    match d {
        0 => "0",
        1 => "1",
        2 => "2",
        3 => "3",
        4 => "4",
        5 => "5",
        6 => "6",
        7 => "7",
        8 => "8",
        _ => "9",
    }
}

/// The decimal numeral of a byte, as text.
fn decimal_string(n: u8) -> (r: String)
    ensures
        r@ == spec_decimal(n as int),
{
    if n < 10 {
        let s = digit_string(n).to_owned();
        proof {
            assert(s@ =~= spec_decimal(n as int));
        }
        s
    } else if n < 100 {
        let mut s = digit_string(n / 10).to_owned();
        s.append(digit_string(n % 10));
        proof {
            assert(spec_decimal(n as int / 10) == digit_seq(n as int / 10));
            assert(s@ =~= spec_decimal(n as int));
        }
        s
    } else {
        let q = n / 10;
        let mut s = digit_string(q / 10).to_owned();
        s.append(digit_string(q % 10));
        s.append(digit_string(n % 10));
        proof {
            assert(10 <= q < 100);
            assert(spec_decimal(q as int / 10) == digit_seq(q as int / 10));
            assert(spec_decimal(q as int) == digit_seq(q as int / 10) + digit_seq(q as int % 10));
            assert(spec_decimal(n as int) == spec_decimal(n as int / 10) + digit_seq(
                n as int % 10,
            ));
            assert(s@ =~= spec_decimal(n as int));
        }
        s
    }
}

} // verus!
