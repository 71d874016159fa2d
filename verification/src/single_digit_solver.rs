//! The single-symbol probe strategy: position by position, sweep the
//! palette until the exact-match count strictly improves, keep that symbol,
//! and move on.  No backtracking, and at most `N*(P-1)+1` guesses.
//!
//! The strategy is proved to return the secret itself, and never to submit
//! the same sequence twice.

use vstd::prelude::*;

use crate::colors::{color_index, color_of_index, Colors};
use crate::mastermind::{lemma_prefix_push, spec_feedback, GuessStatus, Mastermind};
use crate::mastermind_state::{Values, NUM_ELEMENTS};
use crate::matching::{lemma_exact_update, lemma_feedback_bounded};

verus! {

/// The sequence one probe submits: the confirmed secret prefix before
/// position `p`, the probed symbol of rank `rk` at `p`, and the first color
/// everywhere after.
pub open spec fn probe_values(secret: Seq<Colors>, p: int, rk: int) -> Seq<Colors> {
    Seq::new(
        NUM_ELEMENTS as nat,
        |k: int|
            if k < p {
                secret[k]
            } else if k == p {
                color_of_index(rk)
            } else {
                Colors::Red
            },
    )
}

/// Whether a submitted sequence is one of the probes that come before the
/// probe of rank `ci` at position `i`.
pub open spec fn earlier_probe(secret: Seq<Colors>, v: Seq<Colors>, i: int, ci: int) -> bool {
    exists|p: int, rk: int|
        v == #[trigger] probe_values(secret, p, rk) && 0 <= p && 0 <= rk < 6 && (p < i || (p == i
            && rk < ci))
}

/// An earlier probe differs from the probe of rank `ci` at position `i`: at
/// position `i` an earlier position's probe still shows the first color,
/// and an earlier rank's probe shows a different symbol.
proof fn lemma_earlier_probe_differs(secret: Seq<Colors>, v: Seq<Colors>, i: int, ci: int)
    requires
        earlier_probe(secret, v, i, ci),
        0 <= i < NUM_ELEMENTS,
        1 <= ci < 6,
    ensures
        v != probe_values(secret, i, ci),
{
    let (p, rk): (int, int) = choose|p: int, rk: int|
        v == #[trigger] probe_values(secret, p, rk) && 0 <= p && 0 <= rk < 6 && (p < i || (p == i
            && rk < ci));
    assert(v[i] != probe_values(secret, i, ci)[i]);
}

/// Solves the game by probing one position at a time, and returns the
/// secret: the history grows by at most `N*(P-1)+1 = 21` rounds, each new
/// round carries its true feedback, and no sequence is submitted twice.
pub fn solve(mm: &mut Mastermind) -> (r: Values)
    ensures
        final(mm).initial == old(mm).initial,
        r@ == final(mm).secret(),
        old(mm).guesses@.is_prefix_of(final(mm).guesses@),
        final(mm).guesses@.len() <= old(mm).guesses@.len() + 21,
        old(mm).wf() ==> final(mm).wf(),
        forall|t1: int, t2: int|
            old(mm).guesses@.len() <= t1 < t2 < final(mm).guesses@.len()
                ==> (#[trigger] final(mm).guesses@[t1]).values@
                != (#[trigger] final(mm).guesses@[t2]).values@,
{
    let ghost base = old(mm).guesses@.len() as int;
    let ghost secret = old(mm).secret();
    let mut guess: Values = [Colors::Red; NUM_ELEMENTS];
    proof {
        assert(guess@ =~= probe_values(secret, 0, 0));
        lemma_prefix_push(old(mm).guesses@, old(mm).guesses@);
    }
    let mut eval;
    match mm.guess(guess) {
        GuessStatus::Success => {
            proof {
                assert(guess@ =~= secret);
            }
            return guess;
        },
        GuessStatus::Incorrect(e) => {
            eval = e;
        },
    }

    let mut i: usize = 0;
    while i < NUM_ELEMENTS
        invariant
            i <= NUM_ELEMENTS,
            secret == old(mm).secret(),
            secret.len() == NUM_ELEMENTS,
            base == old(mm).guesses@.len(),
            mm.initial == old(mm).initial,
            old(mm).wf() ==> mm.wf(),
            old(mm).guesses@.is_prefix_of(mm.guesses@),
            mm.guesses@.len() <= base + 1 + 5 * i,
            mm.guesses@.len() >= base + 1,
            guess@ == probe_values(secret, i as int, 0),
            eval == spec_feedback(secret, guess@),
            forall|t: int|
                base <= t < mm.guesses@.len() ==> earlier_probe(
                    secret,
                    (#[trigger] mm.guesses@[t]).values@,
                    i as int,
                    1,
                ),
            forall|t1: int, t2: int|
                base <= t1 < t2 < mm.guesses@.len() ==> (#[trigger] mm.guesses@[t1]).values@ != (
                #[trigger] mm.guesses@[t2]).values@,
        decreases NUM_ELEMENTS - i,
    {
        let mut ci: u8 = 1;
        let mut improved = false;
        while ci < 6 && !improved
            invariant
                1 <= ci <= 6,
                0 <= i < NUM_ELEMENTS,
                secret == old(mm).secret(),
                secret.len() == NUM_ELEMENTS,
                base == old(mm).guesses@.len(),
                mm.initial == old(mm).initial,
                old(mm).wf() ==> mm.wf(),
                old(mm).guesses@.is_prefix_of(mm.guesses@),
                mm.guesses@.len() <= base + 1 + 5 * i + (ci - 1) + (if improved {
                    1int
                } else {
                    0int
                }),
                improved ==> ci <= 5,
                mm.guesses@.len() >= base + 1,
                eval == spec_feedback(secret, guess@),
                !improved ==> guess@ == probe_values(secret, i as int, 0),
                !improved ==> forall|rk: int|
                    1 <= rk < ci ==> color_of_index(rk) != secret[i as int],
                improved ==> guess@ == probe_values(secret, i + 1, 0),
                forall|t: int|
                    base <= t < mm.guesses@.len() ==> earlier_probe(
                        secret,
                        (#[trigger] mm.guesses@[t]).values@,
                        i as int,
                        if improved {
                            ci + 1
                        } else {
                            ci as int
                        },
                    ),
                forall|t1: int, t2: int|
                    base <= t1 < t2 < mm.guesses@.len() ==> (#[trigger] mm.guesses@[t1]).values@
                        != (#[trigger] mm.guesses@[t2]).values@,
            decreases 6 - ci + (if improved {
                0int
            } else {
                1int
            }),
        {
            let c = Colors::from_index(ci);
            let mut current_guess = guess;
            current_guess[i] = c;
            proof {
                assert(current_guess@ =~= probe_values(secret, i as int, ci as int));
                assert(current_guess@ =~= guess@.update(i as int, c));
                assert forall|t: int| base <= t < mm.guesses@.len() implies (#[trigger] mm
                    .guesses@[t]).values@ != current_guess@ by {
                    lemma_earlier_probe_differs(
                        secret,
                        mm.guesses@[t].values@,
                        i as int,
                        ci as int,
                    );
                }
                lemma_prefix_push(old(mm).guesses@, mm.guesses@);
                lemma_exact_update(secret, guess@, i as int, c, NUM_ELEMENTS as int);
                lemma_feedback_bounded(secret, guess@);
                lemma_feedback_bounded(secret, current_guess@);
            }
            match mm.guess(current_guess) {
                GuessStatus::Success => {
                    proof {
                        assert(current_guess@ =~= secret);
                    }
                    return current_guess;
                },
                GuessStatus::Incorrect(e) => {
                    proof {
                        // a strict improvement of the exact count can only
                        // mean the probed symbol is the secret's
                        if e.correct_match > eval.correct_match {
                            assert(secret[i as int] == c && secret[i as int] != Colors::Red);
                            assert(current_guess@ =~= probe_values(secret, i + 1, 0));
                        } else {
                            assert(secret[i as int] != c);
                        }
                    }
                    if e.get_correct_match() > eval.get_correct_match() {
                        eval = e;
                        guess = current_guess;
                        improved = true;
                    } else {
                        ci = ci + 1;
                    }
                },
            }
        }
        proof {
            if !improved {
                // every other symbol failed to improve, so this position
                // already shows the secret's symbol: the first color
                assert(secret[i as int] == color_of_index(color_index(secret[i as int])));
                assert(secret[i as int] == Colors::Red);
                assert(probe_values(secret, i as int, 0) =~= probe_values(secret, i + 1, 0));
            }
            assert forall|t: int| base <= t < mm.guesses@.len() implies earlier_probe(
                secret,
                (#[trigger] mm.guesses@[t]).values@,
                i + 1,
                1,
            ) by {
                let (p, rk): (int, int) = choose|p: int, rk: int|
                    mm.guesses@[t].values@ == #[trigger] probe_values(secret, p, rk) && 0 <= p && 0
                        <= rk < 6 && (p < i as int || (p == i as int && rk < if improved {
                        ci + 1
                    } else {
                        ci as int
                    }));
                assert(mm.guesses@[t].values@ == probe_values(secret, p, rk) && 0 <= p && 0 <= rk
                    < 6 && (p < i + 1 || (p == i + 1 && rk < 1)));
            }
        }
        i = i + 1;
    }
    proof {
        assert(guess@ =~= secret);
    }
    guess
}

} // verus!
