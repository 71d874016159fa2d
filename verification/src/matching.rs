//! The mathematical account of the feedback computation.
//!
//! For a secret `s` and a guess `g` of equal length, the feedback is
//! characterized without reference to any marking algorithm:
//!
//! * `exact_matches(s, g)` counts the positions where both hold the same
//!   symbol;
//! * `total_matches(s, g)` sums, over the palette, the smaller of the two
//!   occurrence counts of each color — the number of guess symbols that
//!   appear in the secret, each secret position credited at most once;
//! * `color_matches(s, g)` is their difference: symbols that are present
//!   but misplaced.
//!
//! The lemmas below give the properties the rest of the crate relies on:
//! the feedback is bounded by the length, a self-match is perfect, a perfect
//! match forces equality, and the total depends only on the multiset of the
//! guess, so rearranging guess symbols can only move credit between the two
//! counts.

use vstd::prelude::*;

use crate::colors::Colors;

verus! {

/// The smaller of two integers.
pub open spec fn min2(a: int, b: int) -> int {
    if a < b {
        a
    } else {
        b
    }
}

/// How many of the first `k` positions of `v` hold the color `c`.
pub open spec fn count_color_upto(v: Seq<Colors>, c: Colors, k: int) -> int
    decreases k,
{
    if k <= 0 {
        0
    } else {
        count_color_upto(v, c, k - 1) + if v[k - 1] == c {
            1int
        } else {
            0int
        }
    }
}

/// How many positions of `v` hold the color `c`.
pub open spec fn count_color(v: Seq<Colors>, c: Colors) -> int {
    count_color_upto(v, c, v.len() as int)
}

/// How many of the first `k` positions agree between `s` and `g`.
pub open spec fn exact_upto(s: Seq<Colors>, g: Seq<Colors>, k: int) -> int
    decreases k,
{
    if k <= 0 {
        0
    } else {
        exact_upto(s, g, k - 1) + if s[k - 1] == g[k - 1] {
            1int
        } else {
            0int
        }
    }
}

/// How many positions agree between secret and guess: the exact matches.
pub open spec fn exact_matches(s: Seq<Colors>, g: Seq<Colors>) -> int {
    exact_upto(s, g, s.len() as int)
}

/// How many of the first `k` agreeing positions hold the color `c`.
pub open spec fn exact_color_upto(s: Seq<Colors>, g: Seq<Colors>, c: Colors, k: int) -> int
    decreases k,
{
    if k <= 0 {
        0
    } else {
        exact_color_upto(s, g, c, k - 1) + if s[k - 1] == g[k - 1] && s[k - 1] == c {
            1int
        } else {
            0int
        }
    }
}

/// How many of the first `k` positions of `v` hold the color `c` while
/// disagreeing with `w` there.
pub open spec fn miss_upto(v: Seq<Colors>, w: Seq<Colors>, c: Colors, k: int) -> int
    decreases k,
{
    if k <= 0 {
        0
    } else {
        miss_upto(v, w, c, k - 1) + if v[k - 1] == c && v[k - 1] != w[k - 1] {
            1int
        } else {
            0int
        }
    }
}

/// The number of guess symbols that also appear in the secret, counting a
/// repeated color only as often as both sides hold it.
pub open spec fn total_matches(s: Seq<Colors>, g: Seq<Colors>) -> int {
    min2(count_color(s, Colors::Red), count_color(g, Colors::Red)) + min2(
        count_color(s, Colors::Green),
        count_color(g, Colors::Green),
    ) + min2(count_color(s, Colors::Blue), count_color(g, Colors::Blue)) + min2(
        count_color(s, Colors::Yellow),
        count_color(g, Colors::Yellow),
    ) + min2(count_color(s, Colors::White), count_color(g, Colors::White)) + min2(
        count_color(s, Colors::Black),
        count_color(g, Colors::Black),
    )
}

/// The misplaced symbols: present in both sides but not matched in place.
pub open spec fn color_matches(s: Seq<Colors>, g: Seq<Colors>) -> int {
    total_matches(s, g) - exact_matches(s, g)
}

/// The credit collected after scanning the first `k` guess positions: for
/// each color, the misplaced occurrences seen so far in the guess, capped by
/// the misplaced occurrences the whole secret offers.
pub open spec fn matched_upto(s: Seq<Colors>, g: Seq<Colors>, k: int) -> int {
    min2(miss_upto(g, s, Colors::Red, k), miss_upto(s, g, Colors::Red, s.len() as int)) + min2(
        miss_upto(g, s, Colors::Green, k),
        miss_upto(s, g, Colors::Green, s.len() as int),
    ) + min2(miss_upto(g, s, Colors::Blue, k), miss_upto(s, g, Colors::Blue, s.len() as int))
        + min2(miss_upto(g, s, Colors::Yellow, k), miss_upto(s, g, Colors::Yellow, s.len() as int))
        + min2(miss_upto(g, s, Colors::White, k), miss_upto(s, g, Colors::White, s.len() as int))
        + min2(miss_upto(g, s, Colors::Black, k), miss_upto(s, g, Colors::Black, s.len() as int))
}

/// How many of the first `k` secret positions holding color `c`, and not
/// matched in place, are marked consumed in `ut`.
pub open spec fn consumed_upto(s: Seq<Colors>, g: Seq<Colors>, ut: Seq<bool>, c: Colors, k: int) -> int
    decreases k,
{
    if k <= 0 {
        0
    } else {
        consumed_upto(s, g, ut, c, k - 1) + if ut[k - 1] && s[k - 1] == c && s[k - 1] != g[k - 1] {
            1int
        } else {
            0int
        }
    }
}

/// All the prefix counts lie between zero and the prefix length.
pub proof fn lemma_counts_bounded(s: Seq<Colors>, g: Seq<Colors>, c: Colors, k: int)
    ensures
        0 <= count_color_upto(s, c, k) <= if k <= 0 {
            0int
        } else {
            k
        },
        0 <= exact_upto(s, g, k) <= if k <= 0 {
            0int
        } else {
            k
        },
        0 <= exact_color_upto(s, g, c, k) <= if k <= 0 {
            0int
        } else {
            k
        },
        0 <= miss_upto(s, g, c, k) <= if k <= 0 {
            0int
        } else {
            k
        },
    decreases k,
{
    if k > 0 {
        lemma_counts_bounded(s, g, c, k - 1);
    }
}

/// The occurrences of a color split into the positions matched in place and
/// the positions that disagree, seen from either side; and the in-place
/// count of a color is the same from both sides.
proof fn lemma_count_split(s: Seq<Colors>, g: Seq<Colors>, c: Colors, k: int)
    ensures
        count_color_upto(g, c, k) == miss_upto(g, s, c, k) + exact_color_upto(s, g, c, k),
        count_color_upto(s, c, k) == miss_upto(s, g, c, k) + exact_color_upto(s, g, c, k),
        exact_color_upto(s, g, c, k) == exact_color_upto(g, s, c, k),
    decreases k,
{
    if k > 0 {
        lemma_count_split(s, g, c, k - 1);
    }
}

/// Each agreeing position holds exactly one color, so the per-color
/// in-place counts sum to the exact-match count.
proof fn lemma_exact_sum_colors(s: Seq<Colors>, g: Seq<Colors>, k: int)
    ensures
        exact_color_upto(s, g, Colors::Red, k) + exact_color_upto(s, g, Colors::Green, k)
            + exact_color_upto(s, g, Colors::Blue, k) + exact_color_upto(s, g, Colors::Yellow, k)
            + exact_color_upto(s, g, Colors::White, k) + exact_color_upto(s, g, Colors::Black, k)
            == exact_upto(s, g, k),
    decreases k,
{
    if k > 0 {
        lemma_exact_sum_colors(s, g, k - 1);
    }
}

/// Each position holds exactly one color, so the per-color occurrence
/// counts sum to the prefix length.
pub proof fn lemma_count_sum_colors(v: Seq<Colors>, k: int)
    requires
        0 <= k <= v.len(),
    ensures
        count_color_upto(v, Colors::Red, k) + count_color_upto(v, Colors::Green, k)
            + count_color_upto(v, Colors::Blue, k) + count_color_upto(v, Colors::Yellow, k)
            + count_color_upto(v, Colors::White, k) + count_color_upto(v, Colors::Black, k) == k,
    decreases k,
{
    if k > 0 {
        lemma_count_sum_colors(v, k - 1);
    }
}

/// The feedback counts are bounded: for sequences of equal length, no more
/// symbols can be credited — in place or misplaced — than the length, and
/// neither count is negative.
pub proof fn lemma_feedback_bounded(s: Seq<Colors>, g: Seq<Colors>)
    requires
        s.len() == g.len(),
    ensures
        0 <= exact_matches(s, g),
        0 <= color_matches(s, g),
        exact_matches(s, g) + color_matches(s, g) <= s.len(),
    decreases s.len(),
{
    let n = s.len() as int;
    lemma_count_sum_colors(s, n);
    lemma_exact_sum_colors(s, g, n);
    assert forall|c: Colors| #[trigger] exact_color_upto(s, g, c, n) <= min2(
        count_color(s, c),
        count_color(g, c),
    ) && 0 <= exact_color_upto(s, g, c, n) && min2(count_color(s, c), count_color(g, c))
        <= count_color_upto(s, c, n) by {
        lemma_count_split(s, g, c, n);
        lemma_counts_bounded(s, g, c, n);
        lemma_counts_bounded(g, s, c, n);
    }
}

/// A sequence matched against itself is a perfect match: every position is
/// exact and nothing is merely misplaced.
pub proof fn lemma_self_match(s: Seq<Colors>)
    ensures
        exact_matches(s, s) == s.len(),
        color_matches(s, s) == 0,
{
    let n = s.len() as int;
    lemma_exact_upto_self(s, n);
    lemma_count_sum_colors(s, n);
}

proof fn lemma_exact_upto_self(s: Seq<Colors>, k: int)
    ensures
        exact_upto(s, s, k) == if k <= 0 {
            0int
        } else {
            k
        },
    decreases k,
{
    if k > 0 {
        lemma_exact_upto_self(s, k - 1);
    }
}

/// A full exact-match count forces the two sequences to agree everywhere.
pub proof fn lemma_exact_full(s: Seq<Colors>, g: Seq<Colors>, k: int)
    requires
        exact_upto(s, g, k) == k,
    ensures
        forall|i: int| 0 <= i < k ==> s[i] == g[i],
    decreases k,
{
    if k > 0 {
        lemma_counts_bounded(s, g, Colors::Red, k - 1);
        lemma_exact_full(s, g, k - 1);
    }
}

/// A marking that only covers positions matched in place consumes no
/// misplaced occurrence of any color.
proof fn lemma_consumed_exact_only(s: Seq<Colors>, g: Seq<Colors>, ut: Seq<bool>, c: Colors, k: int)
    requires
        forall|j: int| 0 <= j < k && ut[j] ==> s[j] == g[j],
    ensures
        consumed_upto(s, g, ut, c, k) == 0,
    decreases k,
{
    if k > 0 {
        lemma_consumed_exact_only(s, g, ut, c, k - 1);
    }
}

/// Newly consuming one secret position raises the consumed count of its
/// color by one — when it was free and not matched in place — and no other.
proof fn lemma_consumed_update(
    s: Seq<Colors>,
    g: Seq<Colors>,
    ut: Seq<bool>,
    jj: int,
    c: Colors,
    k: int,
)
    requires
        0 <= jj < ut.len(),
        k <= ut.len(),
        !ut[jj],
    ensures
        consumed_upto(s, g, ut.update(jj, true), c, k) == consumed_upto(s, g, ut, c, k) + if jj < k
            && s[jj] == c && s[jj] != g[jj] {
            1int
        } else {
            0int
        },
    decreases k,
{
    if k > 0 {
        lemma_consumed_update(s, g, ut, jj, c, k - 1);
    }
}

/// Once every misplaced occurrence of a color is marked consumed, the
/// consumed count equals the number of such occurrences.
proof fn lemma_consumed_all(s: Seq<Colors>, g: Seq<Colors>, ut: Seq<bool>, c: Colors, k: int)
    requires
        forall|j: int| 0 <= j < k && s[j] == c && s[j] != g[j] ==> ut[j],
    ensures
        consumed_upto(s, g, ut, c, k) == miss_upto(s, g, c, k),
    decreases k,
{
    if k > 0 {
        lemma_consumed_all(s, g, ut, c, k - 1);
    }
}

/// A free, misplaced occurrence of a color keeps the consumed count
/// strictly below the number of misplaced occurrences.
proof fn lemma_consumed_lt(
    s: Seq<Colors>,
    g: Seq<Colors>,
    ut: Seq<bool>,
    c: Colors,
    jj: int,
    k: int,
)
    requires
        0 <= jj < k,
        s[jj] == c,
        s[jj] != g[jj],
        !ut[jj],
    ensures
        consumed_upto(s, g, ut, c, k) <= miss_upto(s, g, c, k) - 1,
    decreases k,
{
    lemma_consumed_le(s, g, ut, c, k - 1);
    if jj < k - 1 {
        lemma_consumed_lt(s, g, ut, c, jj, k - 1);
    }
}

/// The consumed count never exceeds the number of misplaced occurrences.
proof fn lemma_consumed_le(s: Seq<Colors>, g: Seq<Colors>, ut: Seq<bool>, c: Colors, k: int)
    ensures
        consumed_upto(s, g, ut, c, k) <= miss_upto(s, g, c, k),
    decreases k,
{
    if k > 0 {
        lemma_consumed_le(s, g, ut, c, k - 1);
    }
}

/// Before any guess position was scanned, nothing is credited.
proof fn lemma_matched_zero(s: Seq<Colors>, g: Seq<Colors>)
    ensures
        matched_upto(s, g, 0) == 0,
{
    let n = s.len() as int;
    lemma_counts_bounded(s, g, Colors::Red, n);
    lemma_counts_bounded(s, g, Colors::Green, n);
    lemma_counts_bounded(s, g, Colors::Blue, n);
    lemma_counts_bounded(s, g, Colors::Yellow, n);
    lemma_counts_bounded(s, g, Colors::White, n);
    lemma_counts_bounded(s, g, Colors::Black, n);
}

/// After the whole guess was scanned, the collected credit is exactly the
/// misplaced-symbol count of the feedback.
pub proof fn lemma_matched_final(s: Seq<Colors>, g: Seq<Colors>)
    requires
        s.len() == g.len(),
    ensures
        matched_upto(s, g, s.len() as int) == color_matches(s, g),
{
    let n = s.len() as int;
    lemma_exact_sum_colors(s, g, n);
    assert forall|c: Colors|
        #[trigger] min2(miss_upto(g, s, c, n), miss_upto(s, g, c, n)) == min2(
            count_color(s, c),
            count_color(g, c),
        ) - exact_color_upto(s, g, c, n) by {
        lemma_count_split(s, g, c, n);
    }
}

/// Whether a marking consumes, for every color, exactly the credit of the
/// first `k` guess positions: the misplaced guess occurrences seen so far,
/// capped by what the secret offers.
pub open spec fn consumed_matches(
    s: Seq<Colors>,
    g: Seq<Colors>,
    ut: Seq<bool>,
    k: int,
) -> bool {
    forall|c: Colors|
        #[trigger] consumed_upto(s, g, ut, c, s.len() as int) == min2(
            miss_upto(g, s, c, k),
            miss_upto(s, g, c, s.len() as int),
        )
}

/// A marking that only covers positions matched in place is in step with an
/// empty scanned prefix: nothing has been credited yet.
pub proof fn lemma_matched_init(s: Seq<Colors>, g: Seq<Colors>, ut: Seq<bool>)
    requires
        forall|j: int| 0 <= j < s.len() && ut[j] ==> s[j] == g[j],
    ensures
        consumed_matches(s, g, ut, 0),
        matched_upto(s, g, 0) == 0,
{
    let n = s.len() as int;
    assert forall|c: Colors|
        #[trigger] consumed_upto(s, g, ut, c, n) == min2(
            miss_upto(g, s, c, 0),
            miss_upto(s, g, c, n),
        ) by {
        lemma_consumed_exact_only(s, g, ut, c, n);
        lemma_counts_bounded(s, g, c, n);
    }
    lemma_matched_zero(s, g);
}

/// One scan step that finds a free secret slot: consuming it keeps the
/// marking in step with the scanned prefix, and the collected credit grows
/// by one.
pub proof fn lemma_matched_step_hit(
    s: Seq<Colors>,
    g: Seq<Colors>,
    ut: Seq<bool>,
    i: int,
    jj: int,
)
    requires
        s.len() == g.len(),
        ut.len() == s.len(),
        0 <= i < g.len(),
        0 <= jj < s.len(),
        consumed_matches(s, g, ut, i),
        s[jj] == g[i],
        s[jj] != g[jj],
        g[i] != s[i],
        !ut[jj],
    ensures
        consumed_matches(s, g, ut.update(jj, true), i + 1),
        matched_upto(s, g, i + 1) == matched_upto(s, g, i) + 1,
{
    let n = s.len() as int;
    let cc = g[i];
    let ut1 = ut.update(jj, true);
    lemma_consumed_lt(s, g, ut, cc, jj, n);
    assert forall|c: Colors|
        #[trigger] consumed_upto(s, g, ut1, c, n) == min2(
            miss_upto(g, s, c, i + 1),
            miss_upto(s, g, c, n),
        ) by {
        lemma_consumed_update(s, g, ut, jj, c, n);
        assert(consumed_upto(s, g, ut, c, n) == min2(
            miss_upto(g, s, c, i),
            miss_upto(s, g, c, n),
        ));
        lemma_counts_bounded(g, s, c, i);
    }
    lemma_matched_unfold(s, g, ut, ut1, i);
}

/// One scan step that finds no free slot of its color: the secret-side cap
/// was already reached, so neither the marking nor the credit changes.
pub proof fn lemma_matched_step_miss(s: Seq<Colors>, g: Seq<Colors>, ut: Seq<bool>, i: int)
    requires
        s.len() == g.len(),
        ut.len() == s.len(),
        0 <= i < g.len(),
        consumed_matches(s, g, ut, i),
        g[i] != s[i],
        forall|j: int| 0 <= j < s.len() ==> !(s[j] == g[i] && !ut[j]),
    ensures
        consumed_matches(s, g, ut, i + 1),
        matched_upto(s, g, i + 1) == matched_upto(s, g, i),
{
    let n = s.len() as int;
    let cc = g[i];
    lemma_consumed_all(s, g, ut, cc, n);
    assert forall|c: Colors|
        #[trigger] consumed_upto(s, g, ut, c, n) == min2(
            miss_upto(g, s, c, i + 1),
            miss_upto(s, g, c, n),
        ) by {
        assert(consumed_upto(s, g, ut, c, n) == min2(
            miss_upto(g, s, c, i),
            miss_upto(s, g, c, n),
        ));
    }
    lemma_matched_unfold(s, g, ut, ut, i);
}

/// One scan step over a position already matched in place: the guess-side
/// counts of misplaced occurrences do not move, so nothing changes.
pub proof fn lemma_matched_step_exact(s: Seq<Colors>, g: Seq<Colors>, ut: Seq<bool>, i: int)
    requires
        s.len() == g.len(),
        ut.len() == s.len(),
        0 <= i < g.len(),
        consumed_matches(s, g, ut, i),
        g[i] == s[i],
    ensures
        consumed_matches(s, g, ut, i + 1),
        matched_upto(s, g, i + 1) == matched_upto(s, g, i),
{
    let n = s.len() as int;
    assert forall|c: Colors|
        #[trigger] consumed_upto(s, g, ut, c, n) == min2(
            miss_upto(g, s, c, i + 1),
            miss_upto(s, g, c, n),
        ) by {
        assert(consumed_upto(s, g, ut, c, n) == min2(
            miss_upto(g, s, c, i),
            miss_upto(s, g, c, n),
        ));
    }
    lemma_matched_unfold(s, g, ut, ut, i);
}

/// The collected credit moves in step with the consumed counts: the sums on
/// both sides are the same six per-color terms.
proof fn lemma_matched_unfold(
    s: Seq<Colors>,
    g: Seq<Colors>,
    ut0: Seq<bool>,
    ut1: Seq<bool>,
    i: int,
)
    requires
        consumed_matches(s, g, ut0, i),
        consumed_matches(s, g, ut1, i + 1),
    ensures
        matched_upto(s, g, i) == consumed_upto(s, g, ut0, Colors::Red, s.len() as int)
            + consumed_upto(s, g, ut0, Colors::Green, s.len() as int) + consumed_upto(
            s,
            g,
            ut0,
            Colors::Blue,
            s.len() as int,
        ) + consumed_upto(s, g, ut0, Colors::Yellow, s.len() as int) + consumed_upto(
            s,
            g,
            ut0,
            Colors::White,
            s.len() as int,
        ) + consumed_upto(s, g, ut0, Colors::Black, s.len() as int),
        matched_upto(s, g, i + 1) == consumed_upto(s, g, ut1, Colors::Red, s.len() as int)
            + consumed_upto(s, g, ut1, Colors::Green, s.len() as int) + consumed_upto(
            s,
            g,
            ut1,
            Colors::Blue,
            s.len() as int,
        ) + consumed_upto(s, g, ut1, Colors::Yellow, s.len() as int) + consumed_upto(
            s,
            g,
            ut1,
            Colors::White,
            s.len() as int,
        ) + consumed_upto(s, g, ut1, Colors::Black, s.len() as int),
{
    let n = s.len() as int;
    assert(consumed_upto(s, g, ut0, Colors::Red, n) == min2(
        miss_upto(g, s, Colors::Red, i),
        miss_upto(s, g, Colors::Red, n),
    ));
    assert(consumed_upto(s, g, ut0, Colors::Green, n) == min2(
        miss_upto(g, s, Colors::Green, i),
        miss_upto(s, g, Colors::Green, n),
    ));
    assert(consumed_upto(s, g, ut0, Colors::Blue, n) == min2(
        miss_upto(g, s, Colors::Blue, i),
        miss_upto(s, g, Colors::Blue, n),
    ));
    assert(consumed_upto(s, g, ut0, Colors::Yellow, n) == min2(
        miss_upto(g, s, Colors::Yellow, i),
        miss_upto(s, g, Colors::Yellow, n),
    ));
    assert(consumed_upto(s, g, ut0, Colors::White, n) == min2(
        miss_upto(g, s, Colors::White, i),
        miss_upto(s, g, Colors::White, n),
    ));
    assert(consumed_upto(s, g, ut0, Colors::Black, n) == min2(
        miss_upto(g, s, Colors::Black, i),
        miss_upto(s, g, Colors::Black, n),
    ));
    assert(consumed_upto(s, g, ut1, Colors::Red, n) == min2(
        miss_upto(g, s, Colors::Red, i + 1),
        miss_upto(s, g, Colors::Red, n),
    ));
    assert(consumed_upto(s, g, ut1, Colors::Green, n) == min2(
        miss_upto(g, s, Colors::Green, i + 1),
        miss_upto(s, g, Colors::Green, n),
    ));
    assert(consumed_upto(s, g, ut1, Colors::Blue, n) == min2(
        miss_upto(g, s, Colors::Blue, i + 1),
        miss_upto(s, g, Colors::Blue, n),
    ));
    assert(consumed_upto(s, g, ut1, Colors::Yellow, n) == min2(
        miss_upto(g, s, Colors::Yellow, i + 1),
        miss_upto(s, g, Colors::Yellow, n),
    ));
    assert(consumed_upto(s, g, ut1, Colors::White, n) == min2(
        miss_upto(g, s, Colors::White, i + 1),
        miss_upto(s, g, Colors::White, n),
    ));
    assert(consumed_upto(s, g, ut1, Colors::Black, n) == min2(
        miss_upto(g, s, Colors::Black, i + 1),
        miss_upto(s, g, Colors::Black, n),
    ));
}

/// Updating one position adjusts the occurrence count of the old and the
/// new color there, and no other.
pub proof fn lemma_count_update(v: Seq<Colors>, i: int, x: Colors, c: Colors, k: int)
    requires
        0 <= i < v.len(),
        k <= v.len(),
    ensures
        count_color_upto(v.update(i, x), c, k) == count_color_upto(v, c, k) + if i < k {
            (if x == c {
                1int
            } else {
                0int
            }) - (if v[i] == c {
                1int
            } else {
                0int
            })
        } else {
            0int
        },
    decreases k,
{
    if k > 0 {
        lemma_count_update(v, i, x, c, k - 1);
    }
}

/// The occurrence count of a length-four sequence, written out position by
/// position.
pub proof fn lemma_count_unfold4(v: Seq<Colors>, c: Colors)
    requires
        v.len() == 4,
    ensures
        count_color(v, c) == (if v[0] == c {
            1int
        } else {
            0int
        }) + (if v[1] == c {
            1int
        } else {
            0int
        }) + (if v[2] == c {
            1int
        } else {
            0int
        }) + (if v[3] == c {
            1int
        } else {
            0int
        }),
{
    assert(count_color_upto(v, c, 1) == count_color_upto(v, c, 0) + if v[0] == c {
        1int
    } else {
        0int
    });
    assert(count_color_upto(v, c, 2) == count_color_upto(v, c, 1) + if v[1] == c {
        1int
    } else {
        0int
    });
    assert(count_color_upto(v, c, 3) == count_color_upto(v, c, 2) + if v[2] == c {
        1int
    } else {
        0int
    });
    assert(count_color_upto(v, c, 4) == count_color_upto(v, c, 3) + if v[3] == c {
        1int
    } else {
        0int
    });
}

proof fn lemma_exact_upto_sym(s: Seq<Colors>, g: Seq<Colors>, k: int)
    ensures
        exact_upto(s, g, k) == exact_upto(g, s, k),
    decreases k,
{
    if k > 0 {
        lemma_exact_upto_sym(s, g, k - 1);
    }
}

/// The feedback is the same seen from either side: which sequence plays the
/// secret and which the guess does not change the counts.
pub proof fn lemma_feedback_symmetric(s: Seq<Colors>, g: Seq<Colors>)
    requires
        s.len() == g.len(),
    ensures
        exact_matches(s, g) == exact_matches(g, s),
        color_matches(s, g) == color_matches(g, s),
{
    lemma_exact_upto_sym(s, g, s.len() as int);
}

/// Updating one guess position adjusts the exact-match count by whether the
/// new and the old symbol agree with the secret there, and nothing else.
pub proof fn lemma_exact_update(s: Seq<Colors>, g: Seq<Colors>, i: int, x: Colors, k: int)
    requires
        0 <= i < g.len(),
        k <= g.len(),
        k <= s.len(),
    ensures
        exact_upto(s, g.update(i, x), k) == exact_upto(s, g, k) + if i < k {
            (if s[i] == x {
                1int
            } else {
                0int
            }) - (if s[i] == g[i] {
                1int
            } else {
                0int
            })
        } else {
            0int
        },
    decreases k,
{
    if k > 0 {
        lemma_exact_update(s, g, i, x, k - 1);
    }
}

/// Swapping two guess positions whose symbols both disagree with the secret
/// there can move credit between "in place" and "misplaced", but never
/// changes the total number of credited symbols.
pub proof fn lemma_swap_preserves_total(s: Seq<Colors>, g: Seq<Colors>, i: int, j: int)
    requires
        s.len() == g.len(),
        0 <= i < g.len(),
        0 <= j < g.len(),
        g[i] != s[i],
        g[j] != s[j],
    ensures
        exact_matches(s, g.update(i, g[j]).update(j, g[i])) + color_matches(
            s,
            g.update(i, g[j]).update(j, g[i]),
        ) == exact_matches(s, g) + color_matches(s, g),
{
    let g2 = g.update(i, g[j]).update(j, g[i]);
    let n = g.len() as int;
    assert forall|c: Colors| #[trigger] count_color(g2, c) == count_color(g, c) by {
        lemma_count_update(g, i, g[j], c, n);
        lemma_count_update(g.update(i, g[j]), j, g[i], c, n);
    }
}

} // verus!
