//! A sequence of symbols paired with the feedback it earned, and the
//! feedback computation itself.

use vstd::prelude::*;

use crate::colors::{color_of_index, Colors};
use crate::evaluation::Evaluation;
use crate::matching::{
    color_matches, consumed_matches, exact_matches, exact_upto, lemma_feedback_bounded,
    lemma_matched_final, lemma_matched_init, lemma_matched_step_exact, lemma_matched_step_hit,
    lemma_matched_step_miss, matched_upto,
};

verus! {

/// The length of every sequence in a game.
pub const NUM_ELEMENTS: usize = 4;

/// A fixed-length ordered tuple of symbols: a secret or a guess.
pub type Values = [Colors; NUM_ELEMENTS];

/// Whether a byte is a numeral within the palette's index range.
pub open spec fn is_guess_digit(b: u8) -> bool {
    48 <= b <= 53
}

/// The colors named by the guess digits among the first `k` bytes, in
/// order; bytes that are no digit, or out of the palette's range, are
/// ignored.
pub open spec fn parsed_prefix(bytes: Seq<u8>, k: int) -> Seq<Colors>
    decreases k,
{
    if k <= 0 {
        Seq::empty()
    } else {
        parsed_prefix(bytes, k - 1) + if is_guess_digit(bytes[k - 1]) {
            seq![color_of_index(bytes[k - 1] - 48)]
        } else {
            Seq::empty()
        }
    }
}

/// The colors a free-form line of bytes names: only its first
/// `NUM_ELEMENTS` bytes are considered.
pub open spec fn parsed_guess(bytes: Seq<u8>) -> Seq<Colors> {
    parsed_prefix(
        bytes,
        if bytes.len() < NUM_ELEMENTS {
            bytes.len() as int
        } else {
            NUM_ELEMENTS as int
        },
    )
}

/// A parsed guess padded to the full length with the fixed default symbol.
pub open spec fn pad_blue(s: Seq<Colors>) -> Seq<Colors> {
    s + Seq::new(
        if s.len() < NUM_ELEMENTS {
            (NUM_ELEMENTS - s.len()) as nat
        } else {
            0
        },
        |i: int| Colors::Blue,
    )
}

/// Reads a guess from free-form text, leniently: of the first
/// `NUM_ELEMENTS` bytes, every numeral in the palette's index range names a
/// symbol, everything else is ignored, and missing trailing positions are
/// filled with the fixed default symbol.  Malformed, short or long input
/// never errors.
pub fn get_guess_from_string(buf: String) -> (r: Values)
    ensures
        r@ == pad_blue(parsed_guess(vstd::utf8::encode_utf8(buf@))),
{
    let bts: &[u8] = buf.as_str().as_bytes();
    let ghost bv = bts@;
    let limit: usize = if bts.len() < NUM_ELEMENTS {
        bts.len()
    } else {
        NUM_ELEMENTS
    };
    let mut picked: Vec<Colors> = Vec::new();
    let mut k: usize = 0;
    while k < limit
        invariant
            k <= limit,
            limit <= bv.len(),
            limit <= NUM_ELEMENTS,
            bv == bts@,
            picked@ == parsed_prefix(bv, k as int),
            picked@.len() <= k,
        decreases limit - k,
    {
        let b = bts[k];
        if b >= 48 && b <= 53 {
            picked.push(Colors::from_index(b - 48));
        }
        k = k + 1;
    }
    proof {
        assert(parsed_guess(bv) == parsed_prefix(bv, limit as int));
    }
    let mut result = [Colors::Blue; NUM_ELEMENTS];
    let mut t: usize = 0;
    while t < picked.len()
        invariant
            t <= picked@.len(),
            picked@.len() <= NUM_ELEMENTS,
            forall|k2: int| 0 <= k2 < t ==> result@[k2] == picked@[k2],
            forall|k2: int| t <= k2 < NUM_ELEMENTS ==> result@[k2] == Colors::Blue,
        decreases picked.len() - t,
    {
        result[t] = picked[t];
        t = t + 1;
    }
    proof {
        assert(result@ =~= pad_blue(picked@));
    }
    result
}

/// Parsing the digit string of a sequence's own ranks gives that sequence
/// back: each rank maps to its numeral, every numeral is in range, and no
/// padding is needed.
pub proof fn lemma_parse_round_trip(v: Seq<Colors>, bytes: Seq<u8>)
    requires
        v.len() == NUM_ELEMENTS,
        bytes.len() == NUM_ELEMENTS,
        forall|i: int| 0 <= i < NUM_ELEMENTS ==> bytes[i] == 48 + crate::colors::color_index(v[i]),
    ensures
        pad_blue(parsed_guess(bytes)) == v,
{
    assert(parsed_prefix(bytes, 0) =~= Seq::<Colors>::empty());
    assert(parsed_prefix(bytes, 1) =~= seq![v[0]]);
    assert(parsed_prefix(bytes, 2) =~= seq![v[0], v[1]]);
    assert(parsed_prefix(bytes, 3) =~= seq![v[0], v[1], v[2]]);
    assert(parsed_prefix(bytes, 4) =~= seq![v[0], v[1], v[2], v[3]]);
    assert(pad_blue(parsed_guess(bytes)) =~= v);
}

/// An empty line names no color: the guess read from it is all default
/// symbols.
pub proof fn lemma_parse_empty(bytes: Seq<u8>)
    requires
        bytes.len() == 0,
    ensures
        pad_blue(parsed_guess(bytes)) =~= Seq::new(NUM_ELEMENTS as nat, |i: int| Colors::Blue),
{
}

/// One round of a game: a sequence together with the feedback obtained by
/// diffing it against the secret.
#[derive(Debug, Clone, Copy, PartialEq)]
pub struct MastermindState {
    pub values: Values,
    pub eval: Evaluation,
}

impl MastermindState {
    /// A sequence drawn from the given entropy words — one uniform draw per
    /// position, each reduced to a palette rank — with empty feedback.
    pub fn new_random_state(raws: [u64; NUM_ELEMENTS]) -> (r: Self)
        ensures
            forall|k: int|
                0 <= k < NUM_ELEMENTS ==> r.values@[k] == color_of_index(raws@[k] as int % 6),
            r.eval == (Evaluation { correct_match: 0, color_present: 0 }),
    {
        let mut values: Values = [Colors::Black; NUM_ELEMENTS];
        let mut i: usize = 0;
        while i < NUM_ELEMENTS
            invariant
                i <= NUM_ELEMENTS,
                forall|k: int| 0 <= k < i ==> values@[k] == color_of_index(raws@[k] as int % 6),
            decreases NUM_ELEMENTS - i,
        {
            values[i] = Colors::from_index((raws[i] % 6) as u8);
            i = i + 1;
        }
        MastermindState::new(values, Evaluation::new(0, 0))
    }

    pub fn new(values: Values, eval: Evaluation) -> (r: Self)
        ensures
            r.values == values,
            r.eval == eval,
    {
        MastermindState { values, eval }
    }

    /// A round that has not been evaluated yet: its feedback is empty.
    pub fn new_initial(values: Values) -> (r: Self)
        ensures
            r.values == values,
            r.eval == (Evaluation { correct_match: 0, color_present: 0 }),
    {
        MastermindState { values, eval: Evaluation::new(0, 0) }
    }

    /// The round obtained by evaluating `values` against this state's
    /// sequence as the secret.
    pub fn new_diff_state(&self, values: Values) -> (r: MastermindState)
        ensures
            r.values == values,
            r.eval.correct_match as int == exact_matches(self.values@, values@),
            r.eval.color_present as int == color_matches(self.values@, values@),
            r.eval.correct_match + r.eval.color_present <= NUM_ELEMENTS,
    {
        let eval = MastermindState::diff(self, &values);
        MastermindState::new(values, eval)
    }

    /// Whether this state's sequence equals `rhs`, position by position.
    pub fn are_values_equal(&self, rhs: &Values) -> (r: bool)
        ensures
            r <==> self.values@ =~= rhs@,
    {
        let mut i: usize = 0;
        while i < NUM_ELEMENTS
            invariant
                i <= NUM_ELEMENTS,
                forall|k: int| 0 <= k < i ==> self.values@[k] == rhs@[k],
            decreases NUM_ELEMENTS - i,
        {
            if self.values[i] != rhs[i] {
                return false;
            }
            i = i + 1;
        }
        true
    }

    /// The feedback signal between this state's sequence, taken as the
    /// secret, and a guess.
    ///
    /// Two passes: the first credits and consumes every position matched in
    /// place; the second walks the remaining guess positions and consumes,
    /// for each, the first remaining secret position holding the same
    /// symbol.  The result is exactly the closed-form feedback: the
    /// in-place matches, and the per-color occurrence minima less those
    /// matches.
    #[verifier::loop_isolation(false)]
    pub fn diff(&self, guess: &Values) -> (r: Evaluation)
        ensures
            r.correct_match as int == exact_matches(self.values@, guess@),
            r.color_present as int == color_matches(self.values@, guess@),
            r.correct_match + r.color_present <= NUM_ELEMENTS,
    {
        let mut correct_matches: u8 = 0;
        let mut color_present: u8 = 0;
        let mut used_slots_truth = [false; NUM_ELEMENTS];
        let mut used_slots_guess = [false; NUM_ELEMENTS];

        // correct matches need to be done first
        let mut i: usize = 0;
        while i < NUM_ELEMENTS
            invariant
                i <= NUM_ELEMENTS,
                correct_matches as int == exact_upto(self.values@, guess@, i as int),
                correct_matches <= i,
                forall|k: int|
                    0 <= k < NUM_ELEMENTS ==> used_slots_truth@[k] == (k < i && self.values@[k]
                        == guess@[k]),
                forall|k: int|
                    0 <= k < NUM_ELEMENTS ==> used_slots_guess@[k] == (k < i && self.values@[k]
                        == guess@[k]),
            decreases NUM_ELEMENTS - i,
        {
            if guess[i] == self.values[i] {
                correct_matches = correct_matches + 1;
                used_slots_truth[i] = true;
                used_slots_guess[i] = true;
            }
            i = i + 1;
        }

        // check if at least correct color was picked
        proof {
            lemma_matched_init(self.values@, guess@, used_slots_truth@);
        }
        let mut i: usize = 0;
        while i < NUM_ELEMENTS
            invariant
                i <= NUM_ELEMENTS,
                color_present <= i,
                color_present as int == matched_upto(self.values@, guess@, i as int),
                forall|k: int|
                    i <= k < NUM_ELEMENTS ==> used_slots_guess@[k] == (self.values@[k]
                        == guess@[k]),
                forall|j: int|
                    0 <= j < NUM_ELEMENTS && self.values@[j] == guess@[j]
                        ==> used_slots_truth@[j],
                consumed_matches(self.values@, guess@, used_slots_truth@, i as int),
            decreases NUM_ELEMENTS - i,
        {
            let ghost ut0 = used_slots_truth@;
            let c = guess[i];
            let ghost mut match_j: int = 0int;
            let mut found = false;
            if !used_slots_guess[i] {
                let mut j: usize = 0;
                while j < NUM_ELEMENTS && !found
                    invariant
                        j <= NUM_ELEMENTS,
                        !found ==> used_slots_truth@ == ut0,
                        !found ==> forall|j2: int|
                            0 <= j2 < j ==> !(self.values@[j2] == c && !ut0[j2]),
                        found ==> 0 <= match_j < NUM_ELEMENTS && self.values@[match_j] == c
                            && !ut0[match_j] && used_slots_truth@ == ut0.update(match_j, true),
                    decreases NUM_ELEMENTS - j + (if found { 0int } else { 1int }),
                {
                    if guess[i] == self.values[j] && !used_slots_truth[j] {
                        used_slots_truth[j] = true;
                        proof {
                            match_j = j as int;
                        }
                        found = true;
                    } else {
                        j = j + 1;
                    }
                }
                if found {
                    color_present = color_present + 1;
                    used_slots_guess[i] = true;
                }
            }
            proof {
                if found {
                    // the found slot cannot be an in-place match: those were
                    // all consumed by the first pass
                    assert(self.values@[match_j] != guess@[match_j]);
                    lemma_matched_step_hit(self.values@, guess@, ut0, i as int, match_j);
                } else if guess@[i as int] != self.values@[i as int] {
                    lemma_matched_step_miss(self.values@, guess@, ut0, i as int);
                } else {
                    lemma_matched_step_exact(self.values@, guess@, ut0, i as int);
                }
            }
            i = i + 1;
        }
        proof {
            lemma_matched_final(self.values@, guess@);
            lemma_feedback_bounded(self.values@, guess@);
        }
        Evaluation::new(correct_matches, color_present)
    }

    pub fn get_evaluation(&self) -> (r: Evaluation)
        ensures
            r == self.eval,
    {
        self.eval
    }

    pub fn get_values(&self) -> (r: Values)
        ensures
            r == self.values,
    {
        self.values
    }

    /// The textual rendering of a round: its four colored squares, then its
    /// feedback.
    pub fn to_display_string(&self) -> (r: String)
        requires
            self.eval.correct_match <= NUM_ELEMENTS,
            self.eval.color_present <= NUM_ELEMENTS,
        ensures
            r@ == spec_state_display(*self),
    {
        let mut s = String::new();
        let mut i: usize = 0;
        while i < NUM_ELEMENTS
            invariant
                i <= NUM_ELEMENTS,
                s@ == values_display(self.values@, i as int),
            decreases NUM_ELEMENTS - i,
        {
            let part = self.values[i].to_display_string();
            s.append(part.as_str());
            i = i + 1;
        }
        s.append("  ");
        let eval_part = self.eval.to_display_string();
        s.append(eval_part.as_str());
        s
    }
}

/// The renderings of the first `k` symbols of a sequence, concatenated.
pub open spec fn values_display(v: Seq<Colors>, k: int) -> Seq<char>
    decreases k,
{
    if k <= 0 {
        Seq::empty()
    } else {
        values_display(v, k - 1) + crate::colors::spec_color_display(v[k - 1])
    }
}

/// The textual rendering of a round.
pub open spec fn spec_state_display(st: MastermindState) -> Seq<char> {
    values_display(st.values@, NUM_ELEMENTS as int) + "  "@ + crate::evaluation::spec_eval_display(
        st.eval.correct_match as int,
        st.eval.color_present as int,
    )
}

} // verus!
