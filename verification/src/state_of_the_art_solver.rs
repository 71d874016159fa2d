//! The exhaustive candidate-filtering strategy: keep every sequence still
//! consistent with all feedback received so far, and guess the middle of
//! what remains.  The true secret always reproduces the observed feedback,
//! so it is never filtered out; every wrong guess is, so the universe
//! shrinks until the secret itself is guessed.

use vstd::prelude::*;

use crate::colors::{color_index, color_of_index, Colors};
use crate::evaluation::Evaluation;
use crate::mastermind::{lemma_prefix_push, spec_feedback, GuessStatus, Mastermind};
use crate::mastermind_state::{MastermindState, Values, NUM_ELEMENTS};
use crate::matching::{
    color_matches, exact_matches, lemma_exact_full, lemma_feedback_bounded,
    lemma_feedback_symmetric, lemma_self_match,
};

verus! {

/// The sequence of rank `idx` in the lexicographic enumeration of all
/// sequences, nested by position.
pub open spec fn decode(idx: int) -> Seq<Colors> {
    seq![
        color_of_index(idx / 216),
        color_of_index((idx / 36) % 6),
        color_of_index((idx / 6) % 6),
        color_of_index(idx % 6),
    ]
}

/// The rank of a sequence in that enumeration.
pub open spec fn encode(v: Seq<Colors>) -> int {
    216 * color_index(v[0]) + 36 * color_index(v[1]) + 6 * color_index(v[2]) + color_index(v[3])
}

/// Every sequence appears in the enumeration, at its own rank.
proof fn lemma_decode_encode(v: Seq<Colors>)
    requires
        v.len() == NUM_ELEMENTS,
    ensures
        0 <= encode(v) < 1296,
        decode(encode(v)) =~= v,
{
    let a = color_index(v[0]);
    let b = color_index(v[1]);
    let c = color_index(v[2]);
    let d = color_index(v[3]);
    let idx = 216 * a + 36 * b + 6 * c + d;
    assert(idx / 216 == a && (idx / 36) % 6 == b && (idx / 6) % 6 == c && idx % 6 == d) by (nonlinear_arith)
        requires
            0 <= a < 6 && 0 <= b < 6 && 0 <= c < 6 && 0 <= d < 6 && idx == 216 * a + 36 * b + 6 * c
                + d,
    ;
}

/// The candidate universe: every sequence not yet ruled out by feedback, in
/// enumeration order.
struct AllStates {
    states: Vec<Values>,
}

impl AllStates {
    /// The full universe: all sequences, in enumeration order.
    fn new() -> (r: AllStates)
        ensures
            r.states@.len() == 1296,
            forall|idx: int| 0 <= idx < 1296 ==> (#[trigger] r.states@[idx])@ == decode(idx),
    {
        let mut states: Vec<Values> = Vec::new();
        let mut idx: usize = 0;
        while idx < 1296
            invariant
                idx <= 1296,
                states@.len() == idx,
                forall|k: int| 0 <= k < idx ==> (#[trigger] states@[k])@ == decode(k),
            decreases 1296 - idx,
        {
            let entry: Values = [
                Colors::from_index((idx / 216) as u8),
                Colors::from_index(((idx / 36) % 6) as u8),
                Colors::from_index(((idx / 6) % 6) as u8),
                Colors::from_index((idx % 6) as u8),
            ];
            proof {
                assert(entry@ =~= decode(idx as int));
            }
            states.push(entry);
            idx = idx + 1;
        }
        AllStates { states }
    }

    /// Filters the universe down to the candidates whose feedback against
    /// the guess just made reproduces the feedback actually observed, and
    /// picks the next guess from what remains.  Consistent candidates are
    /// all kept, in order; inconsistent ones all leave, so the universe
    /// strictly shrinks whenever it held one.
    fn reduce(&mut self, values: &Values, eval: &Evaluation) -> (r: Values)
        requires
            exists|k: int|
                0 <= k < old(self).states@.len() && spec_feedback(
                    values@,
                    (#[trigger] old(self).states@[k])@,
                ) == *eval,
        ensures
            forall|j: int|
                0 <= j < final(self).states@.len() ==> spec_feedback(
                    values@,
                    (#[trigger] final(self).states@[j])@,
                ) == *eval,
            forall|j: int|
                0 <= j < final(self).states@.len() ==> exists|k: int|
                    0 <= k < old(self).states@.len() && #[trigger] final(self).states@[j] == old(
                        self,
                    ).states@[k],
            forall|k: int|
                0 <= k < old(self).states@.len() && spec_feedback(
                    values@,
                    (#[trigger] old(self).states@[k])@,
                ) == *eval ==> exists|j: int|
                    0 <= j < final(self).states@.len() && final(self).states@[j] == old(
                        self,
                    ).states@[k],
            final(self).states@.len() <= old(self).states@.len(),
            (exists|k: int|
                0 <= k < old(self).states@.len() && spec_feedback(
                    values@,
                    (#[trigger] old(self).states@[k])@,
                ) != *eval) ==> final(self).states@.len() < old(self).states@.len(),
            final(self).states@.len() > 0,
            exists|j: int| 0 <= j < final(self).states@.len() && final(self).states@[j] == r,
    {
        let state = MastermindState::new_initial(*values);
        let mut kept: Vec<Values> = Vec::new();
        let mut k: usize = 0;
        while k < self.states.len()
            invariant
                state.values@ == values@,
                k <= self.states@.len(),
                kept@.len() <= k,
                forall|j: int|
                    0 <= j < kept@.len() ==> spec_feedback(values@, (#[trigger] kept@[j])@)
                        == *eval,
                forall|j: int|
                    0 <= j < kept@.len() ==> exists|k2: int|
                        0 <= k2 < self.states@.len() && #[trigger] kept@[j] == self.states@[k2],
                forall|k2: int|
                    0 <= k2 < k && spec_feedback(values@, (#[trigger] self.states@[k2])@) == *eval
                        ==> exists|j: int| 0 <= j < kept@.len() && kept@[j] == self.states@[k2],
                (exists|k2: int|
                    0 <= k2 < k && spec_feedback(values@, (#[trigger] self.states@[k2])@)
                        != *eval) ==> kept@.len() < k,
            decreases self.states@.len() - k,
        {
            let ghost kept0 = kept@;
            let cand = self.states[k];
            let ev2 = state.diff(&cand);
            proof {
                lemma_feedback_bounded(values@, cand@);
                assert(state.values@ == values@);
                assert(ev2.correct_match as int == exact_matches(values@, cand@));
                assert(ev2.correct_match == exact_matches(values@, cand@) as u8);
                assert(ev2.color_present == color_matches(values@, cand@) as u8);
                assert(ev2 == spec_feedback(values@, cand@));
            }
            if ev2.get_correct_match() == eval.get_correct_match() && ev2.get_color_present()
                == eval.get_color_present() {
                kept.push(cand);
                proof {
                    assert(eval.correct_match == ev2.correct_match && eval.color_present
                        == ev2.color_present);
                    assert(*eval == ev2);
                    assert(kept@[kept@.len() - 1] == self.states@[k as int]);
                }
            }
            proof {
                assert forall|k2: int|
                    0 <= k2 < k + 1 && spec_feedback(values@, (#[trigger] self.states@[k2])@)
                        == *eval implies exists|j: int|
                    0 <= j < kept@.len() && kept@[j] == self.states@[k2] by {
                    if k2 < k {
                        let j = choose|j: int|
                            0 <= j < kept0.len() && kept0[j] == self.states@[k2];
                        assert(kept@[j] == self.states@[k2]);
                    } else {
                        assert(kept@[kept@.len() - 1] == self.states@[k2]);
                    }
                }
                assert forall|j: int| 0 <= j < kept@.len() implies exists|k2: int|
                    0 <= k2 < self.states@.len() && #[trigger] kept@[j] == self.states@[k2] by {
                    if j < kept0.len() {
                        let k2 = choose|k2: int|
                            0 <= k2 < self.states@.len() && kept0[j] == self.states@[k2];
                        assert(kept@[j] == self.states@[k2]);
                    } else {
                        assert(kept@[j] == self.states@[k as int]);
                    }
                }
            }
            k = k + 1;
        }
        self.states = kept;
        self.new_pick()
    }

    /// The middle element of the remaining universe: the next guess.
    fn new_pick(&self) -> (r: Values)
        requires
            self.states@.len() > 0,
        ensures
            exists|j: int| 0 <= j < self.states@.len() && self.states@[j] == r,
    {
        self.states[self.states.len() / 2]
    }
}

/// Solves the game by consistency filtering and returns the secret: every
/// new round carries its true feedback, no sequence is submitted twice, and
/// the history grows by at most the size of the candidate universe.
pub fn solve(mm: &mut Mastermind) -> (r: Values)
    ensures
        final(mm).initial == old(mm).initial,
        r@ == final(mm).secret(),
        old(mm).guesses@.is_prefix_of(final(mm).guesses@),
        final(mm).guesses@.len() <= old(mm).guesses@.len() + 1296,
        old(mm).wf() ==> final(mm).wf(),
        forall|t1: int, t2: int|
            old(mm).guesses@.len() <= t1 < t2 < final(mm).guesses@.len()
                ==> (#[trigger] final(mm).guesses@[t1]).values@
                != (#[trigger] final(mm).guesses@[t2]).values@,
{
    let ghost base = old(mm).guesses@.len() as int;
    let ghost secret = old(mm).secret();
    let mut states = AllStates::new();
    let mut colors: Values = [Colors::Red, Colors::Red, Colors::Green, Colors::Green];
    proof {
        lemma_decode_encode(secret);
        lemma_decode_encode(colors@);
        assert(states.states@[encode(secret)]@ == secret);
        assert(states.states@[encode(colors@)] == colors);
    }
    loop
        invariant_except_break
            secret == old(mm).secret(),
            secret.len() == NUM_ELEMENTS,
            base == old(mm).guesses@.len(),
            mm.initial == old(mm).initial,
            old(mm).wf() ==> mm.wf(),
            old(mm).guesses@.is_prefix_of(mm.guesses@),
            mm.guesses@.len() + states.states@.len() <= base + 1296,
            exists|k: int|
                0 <= k < states.states@.len() && (#[trigger] states.states@[k])@ == secret,
            exists|k: int| 0 <= k < states.states@.len() && #[trigger] states.states@[k] == colors,
            forall|t: int|
                base <= t < mm.guesses@.len() ==> forall|k: int|
                    0 <= k < states.states@.len() ==> (#[trigger] mm.guesses@[t]).values != (
                    #[trigger] states.states@[k]),
            forall|t1: int, t2: int|
                base <= t1 < t2 < mm.guesses@.len() ==> (#[trigger] mm.guesses@[t1]).values@ != (
                #[trigger] mm.guesses@[t2]).values@,
        ensures
            colors@ == secret,
            mm.initial == old(mm).initial,
            old(mm).wf() ==> mm.wf(),
            old(mm).guesses@.is_prefix_of(mm.guesses@),
            mm.guesses@.len() <= base + 1296,
            forall|t1: int, t2: int|
                base <= t1 < t2 < mm.guesses@.len() ==> (#[trigger] mm.guesses@[t1]).values@ != (
                #[trigger] mm.guesses@[t2]).values@,
        decreases states.states@.len(),
    {
        proof {
            lemma_prefix_push(old(mm).guesses@, mm.guesses@);
            let ghost ci = choose|k: int|
                0 <= k < states.states@.len() && #[trigger] states.states@[k] == colors;
            assert forall|t: int| base <= t < mm.guesses@.len() implies (#[trigger] mm
                .guesses@[t]).values@ != colors@ by {
                assert(mm.guesses@[t].values != states.states@[ci]);
                if mm.guesses@[t].values@ == colors@ {
                    assert(mm.guesses@[t].values@ =~= colors@);
                    assert(mm.guesses@[t].values == colors);
                    assert(false);
                }
            }
        }
        match mm.guess(colors) {
            GuessStatus::Success => {
                proof {
                    assert(colors@ =~= secret);
                }
                break ;
            },
            GuessStatus::Incorrect(e) => {
                proof {
                    lemma_feedback_bounded(secret, colors@);
                    lemma_self_match(colors@);
                    if exact_matches(secret, colors@) == 4 {
                        lemma_exact_full(secret, colors@, NUM_ELEMENTS as int);
                        assert(colors@ =~= secret);
                        assert(false);
                    }
                    // the secret reproduces the observed feedback, seen
                    // from either side
                    lemma_feedback_symmetric(secret, colors@);
                    assert(spec_feedback(colors@, secret) == e);
                    // while the guess itself, a perfect self-match, does
                    // not
                    assert(spec_feedback(colors@, colors@) != e);
                }
                let ghost old_states = states.states@;
                let ghost old_colors = colors;
                colors = states.reduce(&colors, &e);
                proof {
                    let ghost gi = choose|k: int|
                        0 <= k < old_states.len() && #[trigger] old_states[k] == old_colors;
                    assert(spec_feedback(old_colors@, (old_states[gi])@) != e);
                    assert forall|t: int|
                        base <= t < mm.guesses@.len() implies forall|k: int|
                            0 <= k < states.states@.len() ==> (#[trigger] mm.guesses@[t]).values
                                != (#[trigger] states.states@[k]) by {
                        assert forall|k: int|
                            0 <= k < states.states@.len() implies (mm.guesses@[t]).values != (
                            #[trigger] states.states@[k]) by {
                            if t < mm.guesses@.len() - 1 {
                                let k2 = choose|k2: int|
                                    0 <= k2 < old_states.len() && #[trigger] states.states@[k]
                                        == old_states[k2];
                                assert(mm.guesses@[t].values != old_states[k2]);
                            } else {
                                // the guess just made is inconsistent with
                                // its own feedback, so it was filtered out
                                assert(mm.guesses@[t].values == old_colors);
                                if states.states@[k] == old_colors {
                                    assert(spec_feedback(old_colors@, (states.states@[k])@) == e);
                                    assert(false);
                                }
                            }
                        }
                    }
                }
            },
        }
    }
    colors
}

} // verus!
