//! The color-census strategy: first determine, color by color, how many
//! positions of the secret hold each symbol; then search for the right
//! arrangement by swapping positions, pruned by a per-position store of the
//! symbols still possible there, which only ever shrinks.

use vstd::prelude::*;

use crate::colors::{color_index, color_of_index, Colors};
use crate::evaluation::Evaluation;
use crate::mastermind::{lemma_prefix_push, GuessStatus, Mastermind};
use crate::mastermind_state::{Values, NUM_ELEMENTS};
use crate::matching::{
    count_color, count_color_upto, lemma_count_sum_colors, lemma_count_unfold4,
    lemma_counts_bounded, lemma_feedback_bounded, total_matches,
};

verus! {

/// A set of palette symbols, one membership flag per rank.
#[derive(Debug, Clone, Copy)]
pub struct ColorSet {
    pub present: [bool; 6],
}

impl ColorSet {
    /// Whether the set holds a color.
    pub open spec fn has(self, c: Colors) -> bool {
        self.present@[color_index(c)]
    }

    /// The empty set.
    pub fn new_empty() -> (r: ColorSet)
        ensures
            forall|c: Colors| !r.has(c),
    {
        ColorSet { present: [false; 6] }
    }

    /// Adds one color.
    pub fn insert(&mut self, c: Colors)
        ensures
            forall|c2: Colors| final(self).has(c2) == (old(self).has(c2) || c2 == c),
    {
        let mut present = self.present;
        present[color_index_exec(c) as usize] = true;
        self.present = present;
        proof {
            assert forall|c2: Colors| final(self).has(c2) == (old(self).has(c2) || c2 == c) by {
                lemma_color_index_injective(c, c2);
            }
        }
    }

    /// Removes one color.
    pub fn remove(&mut self, c: Colors)
        ensures
            forall|c2: Colors| final(self).has(c2) == (old(self).has(c2) && c2 != c),
    {
        let mut present = self.present;
        present[color_index_exec(c) as usize] = false;
        self.present = present;
        proof {
            assert forall|c2: Colors| final(self).has(c2) == (old(self).has(c2) && c2 != c) by {
                lemma_color_index_injective(c, c2);
            }
        }
    }

    /// Whether the set holds a color.
    pub fn contains(&self, c: &Colors) -> (r: bool)
        ensures
            r == self.has(*c),
    {
        self.present[color_index_exec(*c) as usize]
    }

    /// Empties the set.
    pub fn clear(&mut self)
        ensures
            forall|c2: Colors| !final(self).has(c2),
    {
        self.present = [false; 6];
    }

    /// The union of two sets.
    pub fn union(&self, other: &ColorSet) -> (r: ColorSet)
        ensures
            forall|c2: Colors| r.has(c2) == (self.has(c2) || other.has(c2)),
    {
        ColorSet {
            present: [
                self.present[0] || other.present[0],
                self.present[1] || other.present[1],
                self.present[2] || other.present[2],
                self.present[3] || other.present[3],
                self.present[4] || other.present[4],
                self.present[5] || other.present[5],
            ],
        }
    }

    /// How many colors the set holds.
    pub fn count(&self) -> (r: usize)
        ensures
            r == spec_set_count(*self),
    {
        let mut n: usize = 0;
        if self.present[0] {
            n = n + 1;
        }
        if self.present[1] {
            n = n + 1;
        }
        if self.present[2] {
            n = n + 1;
        }
        if self.present[3] {
            n = n + 1;
        }
        if self.present[4] {
            n = n + 1;
        }
        if self.present[5] {
            n = n + 1;
        }
        n
    }
}

/// How many colors a set holds.
pub open spec fn spec_set_count(s: ColorSet) -> int {
    (if s.has(Colors::Red) {
        1int
    } else {
        0int
    }) + (if s.has(Colors::Green) {
        1int
    } else {
        0int
    }) + (if s.has(Colors::Blue) {
        1int
    } else {
        0int
    }) + (if s.has(Colors::Yellow) {
        1int
    } else {
        0int
    }) + (if s.has(Colors::White) {
        1int
    } else {
        0int
    }) + (if s.has(Colors::Black) {
        1int
    } else {
        0int
    })
}

/// Two colors with the same rank are the same color.
proof fn lemma_color_index_injective(c1: Colors, c2: Colors)
    ensures
        color_index(c1) == color_index(c2) ==> c1 == c2,
{
}

/// The rank of a color, as a value.
fn color_index_exec(c: Colors) -> (r: u8)
    ensures
        r as int == color_index(c),
{
    match c {
        Colors::Red => 0,
        Colors::Green => 1,
        Colors::Blue => 2,
        Colors::Yellow => 3,
        Colors::White => 4,
        Colors::Black => 5,
    }
}

/// Whether a sequence holds a color anywhere.
pub open spec fn in_values(v: Seq<Colors>, c: Colors) -> bool {
    exists|k: int| 0 <= k < v.len() && v[k] == c
}

/// Whether two sequences hold the same symbols everywhere.
fn values_equal(a: &Values, b: &Values) -> (r: bool)
    ensures
        r <==> a@ =~= b@,
{
    let mut i: usize = 0;
    while i < NUM_ELEMENTS
        invariant
            i <= NUM_ELEMENTS,
            forall|k: int| 0 <= k < i ==> a@[k] == b@[k],
        decreases NUM_ELEMENTS - i,
    {
        if a[i] != b[i] {
            return false;
        }
        i = i + 1;
    }
    true
}

/// Whether every position of a sequence holds its first symbol.
fn are_all_colors_equal(values: &Values) -> (r: bool)
    ensures
        r <==> forall|k: int| 0 <= k < NUM_ELEMENTS ==> #[trigger] values@[k] == values@[0],
{
    let first = values[0];
    let mut i: usize = 0;
    while i < NUM_ELEMENTS
        invariant
            i <= NUM_ELEMENTS,
            first == values@[0],
            forall|k: int| 0 <= k < i ==> #[trigger] values@[k] == values@[0],
        decreases NUM_ELEMENTS - i,
    {
        if values[i] != first {
            return false;
        }
        i = i + 1;
    }
    true
}

/// The sequence that repeats one symbol everywhere.
pub open spec fn all_of(c: Colors) -> Seq<Colors> {
    Seq::new(NUM_ELEMENTS as nat, |k: int| c)
}

/// Guessing one symbol everywhere earns, in total, exactly as much credit
/// as the secret has positions of that symbol: the census reads occurrence
/// counts off the feedback.
proof fn lemma_census_feedback(secret: Seq<Colors>, c: Colors)
    requires
        secret.len() == NUM_ELEMENTS,
    ensures
        total_matches(secret, all_of(c)) == count_color(secret, c),
        0 <= count_color(secret, c) <= NUM_ELEMENTS,
{
    lemma_count_unfold4(all_of(c), Colors::Red);
    lemma_count_unfold4(all_of(c), Colors::Green);
    lemma_count_unfold4(all_of(c), Colors::Blue);
    lemma_count_unfold4(all_of(c), Colors::Yellow);
    lemma_count_unfold4(all_of(c), Colors::White);
    lemma_count_unfold4(all_of(c), Colors::Black);
    lemma_counts_bounded(secret, secret, Colors::Red, 4);
    lemma_counts_bounded(secret, secret, Colors::Green, 4);
    lemma_counts_bounded(secret, secret, Colors::Blue, 4);
    lemma_counts_bounded(secret, secret, Colors::Yellow, 4);
    lemma_counts_bounded(secret, secret, Colors::White, 4);
    lemma_counts_bounded(secret, secret, Colors::Black, 4);
}

/// How many secret positions the census has accounted for after probing
/// the first `rank` symbols.
pub open spec fn census_filled(secret: Seq<Colors>, rank: int) -> int
    decreases rank,
{
    if rank <= 0 {
        0
    } else {
        census_filled(secret, rank - 1) + count_color(secret, color_of_index(rank - 1))
    }
}

/// The five probed symbols and the sentinel together account for every
/// position.
proof fn lemma_census_filled_5(secret: Seq<Colors>)
    requires
        secret.len() == NUM_ELEMENTS,
    ensures
        census_filled(secret, 5) + count_color(secret, Colors::Black) == 4,
{
    lemma_count_sum_colors(secret, 4);
    assert(census_filled(secret, 0) == 0);
    assert(census_filled(secret, 1) == count_color(secret, Colors::Red));
    assert(census_filled(secret, 2) == census_filled(secret, 1) + count_color(
        secret,
        Colors::Green,
    ));
    assert(census_filled(secret, 3) == census_filled(secret, 2) + count_color(
        secret,
        Colors::Blue,
    ));
    assert(census_filled(secret, 4) == census_filled(secret, 3) + count_color(
        secret,
        Colors::Yellow,
    ));
    assert(census_filled(secret, 5) == census_filled(secret, 4) + count_color(
        secret,
        Colors::White,
    ));
}

/// The accounted positions never shrink and never start below zero.
proof fn lemma_census_mono(secret: Seq<Colors>, a: int, b: int)
    requires
        secret.len() == NUM_ELEMENTS,
        0 <= a <= b,
    ensures
        0 <= census_filled(secret, a) <= census_filled(secret, b),
    decreases b - a,
{
    lemma_census_nonneg(secret, a);
    if a < b {
        lemma_census_mono(secret, a, b - 1);
        lemma_counts_bounded(secret, secret, color_of_index(b - 1), 4);
    }
}

/// The accounted positions are never negative.
proof fn lemma_census_nonneg(secret: Seq<Colors>, a: int)
    requires
        secret.len() == NUM_ELEMENTS,
    ensures
        0 <= census_filled(secret, a),
    decreases a,
{
    if a > 0 {
        lemma_census_nonneg(secret, a - 1);
        lemma_counts_bounded(secret, secret, color_of_index(a - 1), 4);
    }
}

/// The constraint store: for each position, the set of symbols not yet
/// ruled out there.  Sets only shrink, never grow.
struct PossibleColors {
    colors: [ColorSet; NUM_ELEMENTS],
}

impl PossibleColors {
    /// Whether position `i` may still hold color `c`.
    spec fn has(self, i: int, c: Colors) -> bool {
        self.colors@[i].has(c)
    }

    /// Seeds every position with the set of symbols the census found.
    fn new(values: &Values) -> (r: PossibleColors)
        ensures
            forall|i: int, c: Colors|
                0 <= i < NUM_ELEMENTS ==> (#[trigger] r.has(i, c)) == in_values(values@, c),
    {
        let mut colors = ColorSet::new_empty();
        let mut k: usize = 0;
        while k < NUM_ELEMENTS
            invariant
                k <= NUM_ELEMENTS,
                forall|c: Colors|
                    #[trigger] colors.has(c) == exists|j: int| 0 <= j < k && values@[j] == c,
            decreases NUM_ELEMENTS - k,
        {
            let ghost pre = colors;
            colors.insert(values[k]);
            proof {
                assert forall|c: Colors|
                    #[trigger] colors.has(c) == exists|j: int| 0 <= j < k + 1 && values@[j] == c by {
                    if colors.has(c) {
                        if pre.has(c) {
                            let j = choose|j: int| 0 <= j < k && values@[j] == c;
                            assert(0 <= j < k + 1 && values@[j] == c);
                        } else {
                            assert(values@[k as int] == c);
                        }
                    }
                }
            }
            k = k + 1;
        }
        let result = PossibleColors { colors: [colors; NUM_ELEMENTS] };
        result
    }

    /// When a guess earned no exact match at all, every symbol it placed is
    /// impossible at its own position: remove each from that position's
    /// set.  Any other feedback leaves the store unchanged.
    fn reduce_colors(&mut self, values: &Values, eval: &Evaluation)
        ensures
            forall|i: int, c: Colors|
                0 <= i < NUM_ELEMENTS ==> (#[trigger] final(self).has(i, c)) == (old(self).has(i, c)
                    && !(eval.correct_match == 0 && c == values@[i])),
    {
        if 0 == eval.get_correct_match() {
            let mut i: usize = 0;
            while i < NUM_ELEMENTS
                invariant
                    i <= NUM_ELEMENTS,
                    forall|i2: int, c: Colors|
                        0 <= i2 < i ==> (#[trigger] self.has(i2, c)) == (old(self).has(i2, c) && c
                            != values@[i2]),
                    forall|i2: int, c: Colors|
                        i <= i2 < NUM_ELEMENTS ==> (#[trigger] self.has(i2, c)) == old(self).has(
                            i2,
                            c,
                        ),
                decreases NUM_ELEMENTS - i,
            {
                let ghost pre = *self;
                let mut set = self.colors[i];
                set.remove(values[i]);
                self.colors[i] = set;
                proof {
                    assert(self.colors@ =~= pre.colors@.update(i as int, set));
                    assert forall|i2: int, c: Colors| 0 <= i2 < i + 1 implies (#[trigger] self.has(
                        i2,
                        c,
                    )) == (old(self).has(i2, c) && c != values@[i2]) by {
                        if i2 < i {
                            assert(self.has(i2, c) == pre.has(i2, c));
                            assert(pre.has(i2, c) == (old(self).has(i2, c) && c != values@[i2]));
                        } else {
                            assert(self.has(i2, c) == set.has(c));
                            assert(pre.has(i2, c) == old(self).has(i2, c));
                        }
                    }
                    assert forall|i2: int, c: Colors|
                        i + 1 <= i2 < NUM_ELEMENTS implies (#[trigger] self.has(i2, c)) == old(
                        self,
                    ).has(i2, c) by {
                        assert(self.has(i2, c) == pre.has(i2, c));
                        assert(pre.has(i2, c) == old(self).has(i2, c));
                    }
                }
                i = i + 1;
            }
        }
    }

    /// Orders two guessed rounds by their exact-match count, the better
    /// one first.
    fn sort(
        values: Values,
        eval: Evaluation,
        old_values: Values,
        old_eval: Evaluation,
    ) -> (r: (Values, Evaluation, Values, Evaluation))
        ensures
            r == (if eval.correct_match < old_eval.correct_match {
                (old_values, old_eval, values, eval)
            } else {
                (values, eval, old_values, old_eval)
            }),
    {
        if eval.get_correct_match() < old_eval.get_correct_match() {
            (old_values, old_eval, values, eval)
        } else {
            (values, eval, old_values, old_eval)
        }
    }

    /// The deduction a two-round comparison licenses, by the gap between
    /// their exact-match counts.
    fn create_actions(diff: u8) -> (r: ColorAction)
        ensures
            r == spec_create_actions(diff as int),
    {
        if 2 == diff {
            return ColorAction::PinBetter;
        }
        if 1 == diff {
            return ColorAction::DropWorse;
        }
        if 0 == diff {
            return ColorAction::DropBoth;
        }
        ColorAction::Keep
    }

    /// Applies first the no-exact-match rule for the new round, then, for
    /// every position where the two rounds differ, the deduction their
    /// exact-match gap licenses — except that a gap of zero excludes
    /// nothing unless exactly four symbols remain viable store-wide.
    fn reduce_colors_with_previous_state(
        &mut self,
        values: &Values,
        eval: &Evaluation,
        old_values: &Values,
        old_eval: &Evaluation,
    )
        ensures
            forall|i: int, c: Colors|
                0 <= i < NUM_ELEMENTS ==> (#[trigger] final(self).has(i, c)) == after_pair(
                    mid_has(*old(self), values@, eval.correct_match == 0, i, c),
                    (if eval.correct_match < old_eval.correct_match {
                        old_values@[i]
                    } else {
                        values@[i]
                    }),
                    (if eval.correct_match < old_eval.correct_match {
                        values@[i]
                    } else {
                        old_values@[i]
                    }),
                    (if eval.correct_match < old_eval.correct_match {
                        old_eval.correct_match - eval.correct_match
                    } else {
                        eval.correct_match - old_eval.correct_match
                    }),
                    pair_skipped(*old(self), values@, *eval, *old_eval),
                    c,
                ),
    {
        let ghost pre = *old(self);
        self.reduce_colors(values, eval);
        let ghost midpc = *self;
        let (better_values, better_eval, worse_values, worse_eval) = PossibleColors::sort(
            *values,
            *eval,
            *old_values,
            *old_eval,
        );
        let diff = better_eval.get_correct_match() - worse_eval.get_correct_match();
        proof {
            lemma_mid_num(pre, midpc, values@, eval.correct_match == 0);
        }
        if 0 == diff && 4 != self.get_num_colors() {
            return ;
        }
        let action = PossibleColors::create_actions(diff);
        let mut i: usize = 0;
        while i < NUM_ELEMENTS
            invariant
                i <= NUM_ELEMENTS,
                action == spec_create_actions(diff as int),
                diff as int == (if eval.correct_match < old_eval.correct_match {
                    old_eval.correct_match - eval.correct_match
                } else {
                    eval.correct_match - old_eval.correct_match
                }),
                better_values@ == (if eval.correct_match < old_eval.correct_match {
                    old_values@
                } else {
                    values@
                }),
                worse_values@ == (if eval.correct_match < old_eval.correct_match {
                    values@
                } else {
                    old_values@
                }),
                forall|i2: int, c: Colors|
                    0 <= i2 < i ==> (#[trigger] self.has(i2, c)) == after_pair(
                        midpc.has(i2, c),
                        better_values@[i2],
                        worse_values@[i2],
                        diff as int,
                        false,
                        c,
                    ),
                forall|i2: int, c: Colors|
                    i <= i2 < NUM_ELEMENTS ==> (#[trigger] self.has(i2, c)) == midpc.has(i2, c),
            decreases NUM_ELEMENTS - i,
        {
            let ghost loop_pre = *self;
            let worse = worse_values[i];
            let better = better_values[i];
            if worse != better {
                let mut set = self.colors[i];
                action.apply(better, worse, &mut set);
                self.colors[i] = set;
            }
            proof {
                assert forall|i2: int, c: Colors| 0 <= i2 < i + 1 implies (#[trigger] self.has(
                    i2,
                    c,
                )) == after_pair(
                    midpc.has(i2, c),
                    better_values@[i2],
                    worse_values@[i2],
                    diff as int,
                    false,
                    c,
                ) by {
                    if i2 < i {
                        assert(self.has(i2, c) == loop_pre.has(i2, c));
                    } else {
                        assert(loop_pre.has(i2, c) == midpc.has(i2, c));
                    }
                }
                assert forall|i2: int, c: Colors|
                    i + 1 <= i2 < NUM_ELEMENTS implies (#[trigger] self.has(i2, c)) == midpc.has(
                    i2,
                    c,
                ) by {
                    assert(self.has(i2, c) == loop_pre.has(i2, c));
                }
            }
            i = i + 1;
        }
    }

    /// Whether a sequence is still allowed by the store at every position.
    fn are_colors_ok(&self, values: &Values) -> (r: bool)
        ensures
            r <==> forall|i: int|
                0 <= i < NUM_ELEMENTS ==> #[trigger] self.has(i, values@[i]),
    {
        let mut result = true;
        let mut i: usize = 0;
        while i < NUM_ELEMENTS
            invariant
                i <= NUM_ELEMENTS,
                result <==> forall|i2: int| 0 <= i2 < i ==> #[trigger] self.has(i2, values@[i2]),
            decreases NUM_ELEMENTS - i,
        {
            let ghost prev = result;
            if !self.colors[i].contains(&values[i]) {
                result = false;
            }
            proof {
                if result {
                    assert forall|i2: int| 0 <= i2 < i + 1 implies #[trigger] self.has(
                        i2,
                        values@[i2],
                    ) by {
                        if i2 < i {
                            assert(self.has(i2, values@[i2]));
                        } else {
                            assert(self.has(i as int, values@[i as int]));
                        }
                    }
                } else if prev {
                    assert(!self.has(i as int, values@[i as int]));
                } else {
                    assert(exists|w: int| 0 <= w < i && !self.has(w, values@[w]));
                    let w = choose|w: int| 0 <= w < i && !self.has(w, values@[w]);
                    assert(0 <= w < i + 1 && !self.has(w, values@[w]));
                }
            }
            i = i + 1;
        }
        result
    }

    /// How many distinct symbols are still possible anywhere.
    fn get_num_colors(&self) -> (r: usize)
        ensures
            r == spec_num_colors(*self),
    {
        let mut used_colors = ColorSet::new_empty();
        let mut i: usize = 0;
        while i < NUM_ELEMENTS
            invariant
                i <= NUM_ELEMENTS,
                forall|c: Colors|
                    #[trigger] used_colors.has(c) == exists|j: int| 0 <= j < i && self.has(j, c),
            decreases NUM_ELEMENTS - i,
        {
            let ghost pre = used_colors;
            used_colors = used_colors.union(&self.colors[i]);
            proof {
                assert forall|c: Colors|
                    #[trigger] used_colors.has(c) == exists|j: int| 0 <= j < i + 1 && self.has(
                        j,
                        c,
                    ) by {
                    if used_colors.has(c) {
                        if pre.has(c) {
                            let j = choose|j: int| 0 <= j < i && self.has(j, c);
                            assert(0 <= j < i + 1 && self.has(j, c));
                        } else {
                            assert(self.has(i as int, c));
                        }
                    }
                }
            }
            i = i + 1;
        }
        proof {
            assert(forall|c: Colors|
                #[trigger] used_colors.has(c) == union_has(*self, c));
        }
        used_colors.count()
    }
}

/// The deduction a two-round comparison licenses at one differing
/// position.
#[derive(Debug, Clone, Copy, PartialEq, Eq, Structural)]
enum ColorAction {
    PinBetter,
    DropWorse,
    DropBoth,
    Keep,
}

impl ColorAction {
    /// Applies the deduction to one position's set: a gap of two pins the
    /// better round's symbol, a gap of one drops the worse round's symbol,
    /// a gap of zero drops both.
    fn apply(&self, better: Colors, worse: Colors, colors: &mut ColorSet)
        ensures
            forall|c: Colors|
                final(colors).has(c) == action_result(*self, old(colors).has(c), better, worse, c),
    {
        match *self {
            ColorAction::PinBetter => {
                colors.clear();
                colors.insert(better);
            },
            ColorAction::DropWorse => {
                colors.remove(worse);
            },
            ColorAction::DropBoth => {
                colors.remove(better);
                colors.remove(worse);
            },
            ColorAction::Keep => {},
        }
    }
}

/// What one position's set holds after a deduction is applied.
spec fn action_result(a: ColorAction, m: bool, b: Colors, w: Colors, c: Colors) -> bool {
    match a {
        ColorAction::PinBetter => c == b,
        ColorAction::DropWorse => m && c != w,
        ColorAction::DropBoth => m && c != b && c != w,
        ColorAction::Keep => m,
    }
}

/// The deduction licensed by a given exact-match gap.
spec fn spec_create_actions(diff: int) -> ColorAction {
    if 2 == diff {
        ColorAction::PinBetter
    } else if 1 == diff {
        ColorAction::DropWorse
    } else if 0 == diff {
        ColorAction::DropBoth
    } else {
        ColorAction::Keep
    }
}

/// What one position's set holds after the whole pair comparison: nothing
/// moves when the comparison is skipped or the rounds agree there.
spec fn after_pair(m: bool, b: Colors, w: Colors, diff: int, skip: bool, c: Colors) -> bool {
    if skip || b == w {
        m
    } else {
        action_result(spec_create_actions(diff), m, b, w, c)
    }
}

/// What a position's set holds after the no-exact-match rule alone.
spec fn mid_has(pc: PossibleColors, values: Seq<Colors>, cm_zero: bool, i: int, c: Colors) -> bool {
    pc.has(i, c) && !(cm_zero && c == values[i])
}

/// Whether, after the no-exact-match rule, any position still allows a
/// color.
spec fn mid_union_has(pc: PossibleColors, values: Seq<Colors>, cm_zero: bool, c: Colors) -> bool {
    exists|j: int| 0 <= j < NUM_ELEMENTS && mid_has(pc, values, cm_zero, j, c)
}

/// How many distinct symbols stay viable after the no-exact-match rule.
spec fn mid_num_colors(pc: PossibleColors, values: Seq<Colors>, cm_zero: bool) -> int {
    (if mid_union_has(pc, values, cm_zero, Colors::Red) {
        1int
    } else {
        0int
    }) + (if mid_union_has(pc, values, cm_zero, Colors::Green) {
        1int
    } else {
        0int
    }) + (if mid_union_has(pc, values, cm_zero, Colors::Blue) {
        1int
    } else {
        0int
    }) + (if mid_union_has(pc, values, cm_zero, Colors::Yellow) {
        1int
    } else {
        0int
    }) + (if mid_union_has(pc, values, cm_zero, Colors::White) {
        1int
    } else {
        0int
    }) + (if mid_union_has(pc, values, cm_zero, Colors::Black) {
        1int
    } else {
        0int
    })
}

/// Whether the pair comparison excludes nothing: the gap is zero and the
/// store does not pin down exactly four viable symbols.
spec fn pair_skipped(
    pc: PossibleColors,
    values: Seq<Colors>,
    eval: Evaluation,
    old_eval: Evaluation,
) -> bool {
    eval.correct_match == old_eval.correct_match && mid_num_colors(
        pc,
        values,
        eval.correct_match == 0,
    ) != 4
}

/// After the no-exact-match rule, the store counts its viable symbols the
/// same whether computed on the updated store or predicted from the old
/// one.
proof fn lemma_mid_num(pre: PossibleColors, mid: PossibleColors, values: Seq<Colors>, cm_zero: bool)
    requires
        forall|i: int, c: Colors|
            0 <= i < NUM_ELEMENTS ==> (#[trigger] mid.has(i, c)) == mid_has(
                pre,
                values,
                cm_zero,
                i,
                c,
            ),
    ensures
        spec_num_colors(mid) == mid_num_colors(pre, values, cm_zero),
{
    assert forall|c: Colors| #[trigger] union_has(mid, c) == mid_union_has(
        pre,
        values,
        cm_zero,
        c,
    ) by {
        if union_has(mid, c) {
            let j = choose|j: int| 0 <= j < NUM_ELEMENTS && mid.has(j, c);
            assert(mid_has(pre, values, cm_zero, j, c));
        }
        if mid_union_has(pre, values, cm_zero, c) {
            let j = choose|j: int| 0 <= j < NUM_ELEMENTS && mid_has(pre, values, cm_zero, j, c);
            assert(mid.has(j, c));
        }
    }
}

/// Whether a sequence was already tried in this game.
fn contains_values(tried: &Vec<Values>, x: &Values) -> (r: bool)
    ensures
        r == exists|k: int| 0 <= k < tried@.len() && (#[trigger] tried@[k])@ == x@,
{
    let mut k: usize = 0;
    while k < tried.len()
        invariant
            k <= tried@.len(),
            forall|k2: int| 0 <= k2 < k ==> (#[trigger] tried@[k2])@ != x@,
        decreases tried@.len() - k,
    {
        if values_equal(&tried[k], x) {
            return true;
        }
        k = k + 1;
    }
    false
}

/// Phase A, the color census: for each symbol but the sentinel, guess it
/// everywhere; the feedback's total is the number of secret positions
/// holding it.  Fill that many positions of the working sequence, and give
/// every position still unaccounted after the scan the sentinel symbol.
/// The result holds every symbol exactly as often as the secret does.
fn solve_colors(mm: &mut Mastermind) -> (r: Values)
    ensures
        final(mm).initial == old(mm).initial,
        old(mm).guesses@.is_prefix_of(final(mm).guesses@),
        final(mm).guesses@.len() <= old(mm).guesses@.len() + 5,
        old(mm).wf() ==> final(mm).wf(),
        forall|c: Colors| #[trigger] count_color(r@, c) == count_color(final(mm).secret(), c),
{
    let ghost secret = old(mm).secret();
    let ghost base = old(mm).guesses@.len() as int;
    let mut colors: Values = [Colors::Blue; NUM_ELEMENTS];
    let mut filled: usize = 0;
    let mut rank: u8 = 0;
    while rank < 5
        invariant
            rank <= 5,
            filled <= NUM_ELEMENTS,
            secret == old(mm).secret(),
            secret.len() == NUM_ELEMENTS,
            base == old(mm).guesses@.len(),
            mm.initial == old(mm).initial,
            old(mm).wf() ==> mm.wf(),
            old(mm).guesses@.is_prefix_of(mm.guesses@),
            mm.guesses@.len() <= base + rank,
            filled as int == census_filled(secret, rank as int),
            forall|c: Colors|
                #[trigger] count_color_upto(colors@, c, filled as int) == (if color_index(c)
                    < rank {
                    count_color(secret, c)
                } else {
                    0int
                }),
        decreases 5 - rank,
    {
        let c = Colors::from_index(rank);
        let guess: Values = [c; NUM_ELEMENTS];
        proof {
            assert(c == color_of_index(rank as int));
            assert(guess@ =~= all_of(c));
            lemma_prefix_push(old(mm).guesses@, mm.guesses@);
        }
        match mm.guess(guess) {
            GuessStatus::Success => {
                proof {
                    assert(guess@ =~= secret);
                }
                return guess;
            },
            GuessStatus::Incorrect(s) => {
                proof {
                    lemma_feedback_bounded(secret, guess@);
                    lemma_census_feedback(secret, c);
                }
                let cnt = s.get_correct_match() + s.get_color_present();
                proof {
                    assert(cnt as int == count_color(secret, c));
                    assert(filled as int + cnt as int == census_filled(secret, rank + 1));
                    lemma_census_mono(secret, rank + 1, 5);
                    lemma_census_filled_5(secret);
                    lemma_counts_bounded(secret, secret, Colors::Black, 4);
                }
                let target = filled + (cnt as usize);
                let ghost filled0 = filled as int;
                while filled < target
                    invariant
                        filled0 <= filled <= target,
                        target <= NUM_ELEMENTS,
                        target - filled0 == count_color(secret, c),
                        c == color_of_index(rank as int),
                        secret.len() == NUM_ELEMENTS,
                        forall|c2: Colors|
                            #[trigger] count_color_upto(colors@, c2, filled as int) == (if (
                            color_index(c2) < rank) {
                                count_color(secret, c2)
                            } else {
                                0int
                            }) + (if c2 == c {
                                filled - filled0
                            } else {
                                0int
                            }),
                    decreases target - filled,
                {
                    let ghost pre = colors@;
                    colors[filled] = c;
                    proof {
                        assert forall|c2: Colors|
                            #[trigger] count_color_upto(colors@, c2, filled + 1) == (if (
                            color_index(c2) < rank) {
                                count_color(secret, c2)
                            } else {
                                0int
                            }) + (if c2 == c {
                                filled + 1 - filled0
                            } else {
                                0int
                            }) by {
                            crate::matching::lemma_count_update(
                                pre,
                                filled as int,
                                c,
                                c2,
                                filled as int,
                            );
                            assert(count_color_upto(colors@, c2, filled as int)
                                == count_color_upto(pre, c2, filled as int));
                            assert(count_color_upto(colors@, c2, filled + 1) == count_color_upto(
                                colors@,
                                c2,
                                filled as int,
                            ) + if colors@[filled as int] == c2 {
                                1int
                            } else {
                                0int
                            });
                        }
                    }
                    filled = filled + 1;
                }
                if filled == NUM_ELEMENTS {
                    proof {
                        lemma_census_unprobed_empty(secret, rank as int, filled0 + cnt as int);
                        assert forall|c2: Colors| #[trigger] count_color(colors@, c2)
                            == count_color(secret, c2) by {
                            assert(count_color_upto(colors@, c2, 4) == (if (color_index(c2)
                                < rank) {
                                count_color(secret, c2)
                            } else {
                                0int
                            }) + (if c2 == c {
                                cnt as int
                            } else {
                                0int
                            }));
                        }
                    }
                    return colors;
                }
            },
        }
        rank = rank + 1;
    }
    proof {
        lemma_census_filled_5(secret);
        lemma_counts_bounded(secret, secret, Colors::Black, 4);
    }
    let ghost filled5 = filled as int;
    while filled < NUM_ELEMENTS
        invariant
            filled5 <= filled <= NUM_ELEMENTS,
            secret.len() == NUM_ELEMENTS,
            filled5 == census_filled(secret, 5),
            census_filled(secret, 5) + count_color(secret, Colors::Black) == 4,
            forall|c2: Colors|
                #[trigger] count_color_upto(colors@, c2, filled as int) == (if color_index(c2) < 5 {
                    count_color(secret, c2)
                } else {
                    0int
                }) + (if c2 == Colors::Black {
                    filled - filled5
                } else {
                    0int
                }),
        decreases NUM_ELEMENTS - filled,
    {
        let ghost pre = colors@;
        colors[filled] = Colors::Black;
        proof {
            assert forall|c2: Colors|
                #[trigger] count_color_upto(colors@, c2, filled + 1) == (if color_index(c2) < 5 {
                    count_color(secret, c2)
                } else {
                    0int
                }) + (if c2 == Colors::Black {
                    filled + 1 - filled5
                } else {
                    0int
                }) by {
                crate::matching::lemma_count_update(
                    pre,
                    filled as int,
                    Colors::Black,
                    c2,
                    filled as int,
                );
                assert(count_color_upto(colors@, c2, filled as int) == count_color_upto(
                    pre,
                    c2,
                    filled as int,
                ));
                assert(count_color_upto(colors@, c2, filled + 1) == count_color_upto(
                    colors@,
                    c2,
                    filled as int,
                ) + if colors@[filled as int] == c2 {
                    1int
                } else {
                    0int
                });
            }
        }
        filled = filled + 1;
    }
    proof {
        assert forall|c2: Colors| #[trigger] count_color(colors@, c2) == count_color(secret, c2)
            by {
            assert(count_color_upto(colors@, c2, 4) == (if color_index(c2) < 5 {
                count_color(secret, c2)
            } else {
                0int
            }) + (if c2 == Colors::Black {
                4 - filled5
            } else {
                0int
            }));
        }
    }
    colors
}

/// When the census accounts for every position before the scan is done,
/// the symbols not yet probed — and the sentinel — occur nowhere in the
/// secret.
proof fn lemma_census_unprobed_empty(secret: Seq<Colors>, rank: int, accounted: int)
    requires
        secret.len() == NUM_ELEMENTS,
        0 <= rank < 5,
        accounted == census_filled(secret, rank + 1),
        accounted == 4,
    ensures
        forall|c2: Colors| color_index(c2) > rank ==> #[trigger] count_color(secret, c2) == 0,
{
    lemma_census_filled_5(secret);
    lemma_counts_bounded(secret, secret, Colors::Black, 4);
    assert forall|c2: Colors| color_index(c2) > rank implies #[trigger] count_color(secret, c2)
        == 0 by {
        let idx = color_index(c2);
        if idx < 5 {
            lemma_census_mono(secret, rank + 1, idx);
            lemma_census_mono(secret, idx + 1, 5);
            assert(census_filled(secret, idx + 1) == census_filled(secret, idx) + count_color(
                secret,
                color_of_index(idx),
            ));
            assert(color_of_index(idx) == c2);
            lemma_counts_bounded(secret, secret, c2, 4);
        } else {
            lemma_census_mono(secret, rank + 1, 5);
        }
    }
}

/// Whether any position's set still holds a color.
spec fn union_has(pc: PossibleColors, c: Colors) -> bool {
    exists|j: int| 0 <= j < NUM_ELEMENTS && pc.has(j, c)
}

/// How many distinct symbols the whole store still allows.
spec fn spec_num_colors(pc: PossibleColors) -> int {
    (if union_has(pc, Colors::Red) {
        1int
    } else {
        0int
    }) + (if union_has(pc, Colors::Green) {
        1int
    } else {
        0int
    }) + (if union_has(pc, Colors::Blue) {
        1int
    } else {
        0int
    }) + (if union_has(pc, Colors::Yellow) {
        1int
    } else {
        0int
    }) + (if union_has(pc, Colors::White) {
        1int
    } else {
        0int
    }) + (if union_has(pc, Colors::Black) {
        1int
    } else {
        0int
    })
}


/// Solves the game by color census and positional search.  The result
/// holds every symbol exactly as often as the secret does; the history
/// grows by a bounded number of rounds, each carrying its true feedback.
///
/// The positional search submits the working sequence, rules symbols out
/// of the store on no-match feedback, rotates past sequences the store
/// forbids — under a fixed turn budget — and then tries pairwise swaps,
/// skipping sequences already tried, adopting a swap whenever its
/// exact-match count strictly improves.
pub fn solve(mm: &mut Mastermind) -> (r: Values)
    ensures
        final(mm).initial == old(mm).initial,
        old(mm).guesses@.is_prefix_of(final(mm).guesses@),
        final(mm).guesses@.len() <= old(mm).guesses@.len() + 85,
        old(mm).wf() ==> final(mm).wf(),
        forall|c: Colors| #[trigger] count_color(r@, c) == count_color(final(mm).secret(), c),
{
    let ghost secret = old(mm).secret();
    let ghost base = old(mm).guesses@.len() as int;
    let mut result = solve_colors(mm);
    if are_all_colors_equal(&result) {
        return result;
    }
    let mut eval = Evaluation::new(0, 0);
    let mut tried_patterns: Vec<Values> = Vec::new();
    let mut possible_colors = PossibleColors::new(&result);
    let mut shift_loop = true;
    let mut fuel: u8 = 64;
    while shift_loop && fuel > 0
        invariant
            fuel <= 64,
            secret == old(mm).secret(),
            secret.len() == NUM_ELEMENTS,
            base == old(mm).guesses@.len(),
            mm.initial == old(mm).initial,
            old(mm).wf() ==> mm.wf(),
            old(mm).guesses@.is_prefix_of(mm.guesses@),
            mm.guesses@.len() <= base + 5 + (64 - fuel),
            forall|c: Colors| #[trigger] count_color(result@, c) == count_color(secret, c),
        decreases fuel,
    {
        proof {
            lemma_prefix_push(old(mm).guesses@, mm.guesses@);
        }
        match mm.guess(result) {
            GuessStatus::Success => {
                proof {
                    assert(result@ =~= secret);
                }
                return result;
            },
            GuessStatus::Incorrect(e) => {
                eval = e;
                possible_colors.reduce_colors(&result, &eval);
                if !contains_values(&tried_patterns, &result) {
                    tried_patterns.push(result);
                }
                if !possible_colors.are_colors_ok(&result) {
                    let rotated: Values = [result[3], result[0], result[1], result[2]];
                    proof {
                        assert forall|c: Colors| #[trigger] count_color(rotated@, c)
                            == count_color(result@, c) by {
                            lemma_count_unfold4(rotated@, c);
                            lemma_count_unfold4(result@, c);
                        }
                    }
                    result = rotated;
                } else {
                    shift_loop = false;
                }
            },
        }
        fuel = fuel - 1;
    }
    let mut i: usize = 0;
    while i < NUM_ELEMENTS
        invariant
            i <= NUM_ELEMENTS,
            secret == old(mm).secret(),
            secret.len() == NUM_ELEMENTS,
            base == old(mm).guesses@.len(),
            mm.initial == old(mm).initial,
            old(mm).wf() ==> mm.wf(),
            old(mm).guesses@.is_prefix_of(mm.guesses@),
            mm.guesses@.len() <= base + 69 + 4 * i,
            forall|c: Colors| #[trigger] count_color(result@, c) == count_color(secret, c),
        decreases NUM_ELEMENTS - i,
    {
        let mut j: usize = 0;
        let mut improved = false;
        while j < NUM_ELEMENTS
            invariant
                j <= NUM_ELEMENTS,
                0 <= i < NUM_ELEMENTS,
                secret == old(mm).secret(),
                secret.len() == NUM_ELEMENTS,
                base == old(mm).guesses@.len(),
                mm.initial == old(mm).initial,
                old(mm).wf() ==> mm.wf(),
                old(mm).guesses@.is_prefix_of(mm.guesses@),
                mm.guesses@.len() <= base + 69 + 4 * i + j,
                forall|c: Colors| #[trigger] count_color(result@, c) == count_color(secret, c),
            decreases NUM_ELEMENTS - j,
        {
            if !improved {
                let mut current_guess = result;
                if current_guess[i] != current_guess[j] {
                    let vi = current_guess[i];
                    let vj = current_guess[j];
                    current_guess[i] = vj;
                    current_guess[j] = vi;
                    proof {
                        assert forall|c: Colors| #[trigger] count_color(current_guess@, c)
                            == count_color(result@, c) by {
                            lemma_count_unfold4(current_guess@, c);
                            lemma_count_unfold4(result@, c);
                        }
                    }
                    if !contains_values(&tried_patterns, &current_guess) {
                        tried_patterns.push(current_guess);
                        if possible_colors.are_colors_ok(&current_guess) {
                            proof {
                                lemma_prefix_push(old(mm).guesses@, mm.guesses@);
                            }
                            match mm.guess(current_guess) {
                                GuessStatus::Success => {
                                    proof {
                                        assert(current_guess@ =~= secret);
                                    }
                                    return current_guess;
                                },
                                GuessStatus::Incorrect(e) => {
                                    possible_colors.reduce_colors_with_previous_state(
                                        &current_guess,
                                        &e,
                                        &result,
                                        &eval,
                                    );
                                    if eval.get_correct_match() < e.get_correct_match() {
                                        result = current_guess;
                                        eval = e;
                                        improved = true;
                                    }
                                },
                            }
                        }
                    }
                }
            }
            j = j + 1;
        }
        i = i + 1;
    }
    result
}

} // verus!
