//! The k-bit parts of a word, listed in increasing order, and how many there are.

use crate::util::bits::{
    bit_at, bits_below, count_below, lemma_below_single, lemma_bit_consts, lemma_bit_ops,
    lemma_bits_below_members, lemma_bits_equal, lemma_bottom_bits_members, lemma_count_below_all,
    lemma_count_below_range, lemma_count_below_same, lemma_count_below_split,
    lemma_count_below_zero, lemma_popcount_remove, lemma_popcount_single, lemma_popcount_subset,
    lemma_popcount_zero, lemma_test_single, lemma_word_algebra, lowest_bits, popcount, single,
    subset_of, top_bits,
};
use vstd::prelude::*;

verus! {

/// The number of ways to pick `k` things out of `n`.
pub open spec fn binomial(n: nat, k: nat) -> nat
    decreases n,
{
    if k == 0 {
        1
    } else if n == 0 {
        0
    } else {
        binomial((n - 1) as nat, k) + binomial((n - 1) as nat, (k - 1) as nat)
    }
}

/// Each word of `s` with the bit `b` added.
pub open spec fn with_bit(s: Seq<u64>, b: u64) -> Seq<u64> {
    Seq::new(s.len(), |j: int| s[j] | b)
}

/// The words made of `k` of the set bits of `mask` below position `i`, in
/// increasing order: those without the highest such bit first, then those
/// with it.
pub open spec fn combos_below(mask: u64, k: nat, i: int) -> Seq<u64>
    decreases i,
{
    if k == 0 {
        seq![0u64]
    } else if i <= 0 {
        Seq::empty()
    } else if !bit_at(mask, i - 1) {
        combos_below(mask, k, i - 1)
    } else {
        combos_below(mask, k, i - 1) + with_bit(
            combos_below(mask, (k - 1) as nat, i - 1),
            single(i - 1),
        )
    }
}

/// What enumerating the `k`-bit parts of `mask` yields: every word made of
/// `k` of its set bits, in increasing order. For `k == 0` that is the one
/// word without a bit.
pub open spec fn combinations(mask: u64, k: nat) -> Seq<u64> {
    combos_below(mask, k, 64)
}

/// Whether `c` is made of `k` of the set bits of `mask` below position `i`.
pub open spec fn is_combo(mask: u64, k: nat, i: int, c: u64) -> bool {
    &&& forall|q: int| bit_at(c, q) ==> q < i && bit_at(mask, q)
    &&& popcount(c) == k
}

/// Whether the selection `cur` can move a bit up into position `i`: `i` is a
/// free bit of `mask` with a selected bit somewhere below it.
pub open spec fn movable(mask: u64, cur: u64, i: int) -> bool {
    bit_at(mask, i) && !bit_at(cur, i) && count_below(cur, i) > 0
}

/// The selection after a move into position `i`: what was selected above `i`
/// stays, `i` is selected, and the other bits that were selected below `i`,
/// one fewer than before, go to the lowest bits of `mask`.
pub open spec fn moved(mask: u64, cur: u64, i: int) -> u64 {
    (cur & !bits_below(cur, i)) | single(i) | lowest_bits(
        mask,
        (count_below(cur, i) - 1) as nat,
    )
}

/// The selection that follows `cur`, looking for a move from position `i`
/// up: the move into the lowest position that allows one, or `0` where there
/// is none.
pub open spec fn successor_from(mask: u64, cur: u64, i: int) -> u64
    decreases 64 - i,
{
    if i >= 64 {
        0
    } else if movable(mask, cur, i) {
        moved(mask, cur, i)
    } else {
        successor_from(mask, cur, i + 1)
    }
}

/// The selection that follows `cur` among the parts of `mask` with as many
/// bits, or `0` after the last.
pub open spec fn successor(mask: u64, cur: u64) -> u64 {
    successor_from(mask, cur, 0)
}

/// `n` multiplied by itself `k` times.
pub open spec fn power(n: nat, k: nat) -> nat
    decreases k,
{
    if k == 0 {
        1
    } else {
        n * power(n, (k - 1) as nat)
    }
}

/// There is a way to pick `k` out of `n` exactly when `k <= n`.
pub proof fn lemma_binomial_positive(n: nat, k: nat)
    ensures
        binomial(n, k) > 0 <==> k <= n,
    decreases n,
{
    if k != 0 && n != 0 {
        lemma_binomial_positive((n - 1) as nat, k);
        lemma_binomial_positive((n - 1) as nat, (k - 1) as nat);
    }
}

/// There are `binomial(n, k)` words of `k` bits among `n` set bits.
pub proof fn lemma_combos_len(mask: u64, k: nat, i: int)
    ensures
        combos_below(mask, k, i).len() == binomial(count_below(mask, i), k),
    decreases i,
{
    if k != 0 && i > 0 {
        lemma_combos_len(mask, k, i - 1);
        lemma_combos_len(mask, (k - 1) as nat, i - 1);
    }
}

/// Every listed word is made of `k` of the set bits of `mask` below `i`.
pub proof fn lemma_combos_members(mask: u64, k: nat, i: int)
    requires
        0 <= i <= 64,
    ensures
        forall|j: int|
            0 <= j < combos_below(mask, k, i).len() ==> is_combo(
                mask,
                k,
                i,
                #[trigger] combos_below(mask, k, i)[j],
            ),
    decreases i,
{
    let all = combos_below(mask, k, i);
    lemma_bit_consts();
    assert forall|j: int| 0 <= j < all.len() implies is_combo(mask, k, i, #[trigger] all[j]) by {
        if k == 0 {
            lemma_count_below_zero(0, 64);
        } else if i <= 0 {
        } else if !bit_at(mask, i - 1) {
            lemma_combos_members(mask, k, i - 1);
            assert(is_combo(mask, k, i - 1, combos_below(mask, k, i - 1)[j]));
        } else {
            let without = combos_below(mask, k, i - 1);
            let with = combos_below(mask, (k - 1) as nat, i - 1);
            lemma_combos_members(mask, k, i - 1);
            lemma_combos_members(mask, (k - 1) as nat, i - 1);
            if j < without.len() {
                assert(is_combo(mask, k, i - 1, without[j]));
            } else {
                let c = with[j - without.len()];
                assert(is_combo(mask, (k - 1) as nat, i - 1, c));
                assert(all[j] == c | single(i - 1));
                lemma_bit_ops(c, single(i - 1));
                lemma_count_below_split(c | single(i - 1), c, single(i - 1), 64);
                lemma_popcount_single(i - 1);
            }
        }
    }
}

/// The first listed word is made of the `k` lowest set bits of `mask`.
pub proof fn lemma_combos_first(mask: u64, k: nat, i: int)
    requires
        0 <= i <= 64,
        k <= count_below(mask, i),
    ensures
        combos_below(mask, k, i).len() > 0,
        combos_below(mask, k, i)[0] == lowest_bits(mask, k),
    decreases i,
{
    if k == 0 {
    } else if !bit_at(mask, i - 1) {
        lemma_combos_first(mask, k, i - 1);
    } else {
        let without = combos_below(mask, k, i - 1);
        let with = combos_below(mask, (k - 1) as nat, i - 1);
        lemma_combos_len(mask, k, i - 1);
        lemma_binomial_positive(count_below(mask, i - 1), k);
        if k <= count_below(mask, i - 1) {
            lemma_combos_first(mask, k, i - 1);
        } else {
            lemma_combos_first(mask, (k - 1) as nat, i - 1);
            let smaller = lowest_bits(mask, (k - 1) as nat);
            let joined = smaller | single(i - 1);
            assert(combos_below(mask, k, i)[0] == joined);
            lemma_bottom_bits_members(mask, k, 0);
            lemma_bottom_bits_members(mask, (k - 1) as nat, 0);
            lemma_bit_ops(smaller, single(i - 1));
            lemma_bit_consts();
            assert forall|q: int| 0 <= q < 64 implies bit_at(joined, q) == bit_at(
                lowest_bits(mask, k),
                q,
            ) by {
                if q < i - 1 {
                    lemma_count_below_range(mask, q + 1, i - 1);
                } else if q > i - 1 {
                    lemma_count_below_range(mask, i, q);
                }
            }
            lemma_bits_equal(joined, lowest_bits(mask, k));
        }
    }
}

/// Positions that allow no move can be passed over.
pub proof fn lemma_successor_skip(mask: u64, cur: u64, lo: int, hi: int)
    requires
        0 <= lo <= hi <= 64,
        forall|q: int| lo <= q < hi ==> !movable(mask, cur, q),
    ensures
        successor_from(mask, cur, lo) == successor_from(mask, cur, hi),
    decreases hi - lo,
{
    if lo < hi {
        lemma_successor_skip(mask, cur, lo + 1, hi);
    }
}

/// Inside the list of the `k`-bit words below `i`, and whatever is selected
/// from `i` up, `successor` steps from each word to the next; from the last
/// word, which holds the `k` highest bits, no move below `i` is left.
proof fn lemma_successor_within(mask: u64, k: nat, i: int, high: u64, idx: int)
    requires
        0 <= i <= 64,
        forall|q: int| bit_at(high, q) ==> q >= i,
        0 <= idx < combos_below(mask, k, i).len(),
    ensures
        idx + 1 < combos_below(mask, k, i).len() ==> successor(
            mask,
            high | combos_below(mask, k, i)[idx],
        ) == high | combos_below(mask, k, i)[idx + 1],
        idx + 1 == combos_below(mask, k, i).len() ==> successor(
            mask,
            high | combos_below(mask, k, i)[idx],
        ) == successor_from(mask, high | combos_below(mask, k, i)[idx], i) && combos_below(
            mask,
            k,
            i,
        )[idx] == top_bits(mask, k, i),
    decreases i,
{
    let all = combos_below(mask, k, i);
    let cur = high | all[idx];
    lemma_bit_consts();
    lemma_combos_members(mask, k, i);
    assert(is_combo(mask, k, i, all[idx]));
    lemma_bit_ops(high, all[idx]);
    if k == 0 {
        lemma_count_below_zero(cur, i);
        assert forall|q: int| 0 <= q < i implies !movable(mask, cur, q) by {
            lemma_count_below_range(cur, q, i);
        }
        lemma_successor_skip(mask, cur, 0, i);
    } else if !bit_at(mask, i - 1) {
        lemma_successor_within(mask, k, i - 1, high, idx);
        if idx + 1 == all.len() {
            assert(!movable(mask, cur, i - 1));
        }
    } else {
        let without = combos_below(mask, k, i - 1);
        let with = combos_below(mask, (k - 1) as nat, i - 1);
        let top = single(i - 1);
        lemma_combos_members(mask, k, i - 1);
        if idx + 1 < without.len() {
            lemma_successor_within(mask, k, i - 1, high, idx);
        } else if idx + 1 == without.len() {
            lemma_successor_within(mask, k, i - 1, high, idx);
            assert(is_combo(mask, k, i - 1, without[idx]));
            lemma_count_below_all(without[idx], i - 1);
            lemma_count_below_same(cur, without[idx], i - 1);
            assert(movable(mask, cur, i - 1));
            lemma_combos_len(mask, k, i - 1);
            lemma_binomial_positive(count_below(mask, i - 1), k);
            lemma_combos_first(mask, (k - 1) as nat, i - 1);
            let low = lowest_bits(mask, (k - 1) as nat);
            assert(all[idx + 1] == low | top);
            let kept = cur & !bits_below(cur, i - 1);
            let target = high | (low | top);
            lemma_bits_below_members(cur, i - 1);
            lemma_bit_ops(cur, bits_below(cur, i - 1));
            lemma_bit_ops(kept, top);
            lemma_bit_ops(kept | top, low);
            lemma_bit_ops(low, top);
            lemma_bit_ops(high, low | top);
            assert forall|q: int| 0 <= q < 64 implies bit_at(moved(mask, cur, i - 1), q)
                == bit_at(target, q) by {}
            lemma_bits_equal(moved(mask, cur, i - 1), target);
        } else {
            let j = idx - without.len();
            let lifted = high | top;
            lemma_bit_ops(high, top);
            assert(all[idx] == with[j] | top);
            lemma_word_algebra(with[j], top, 0);
            lemma_word_algebra(high, top, with[j]);
            assert(cur == lifted | with[j]);
            lemma_successor_within(mask, (k - 1) as nat, i - 1, lifted, j);
            if j + 1 < with.len() {
                assert(all[idx + 1] == with[j + 1] | top);
                lemma_word_algebra(with[j + 1], top, 0);
                lemma_word_algebra(high, top, with[j + 1]);
            } else {
                lemma_bit_ops(lifted, with[j]);
                assert(bit_at(cur, i - 1));
                assert(!movable(mask, cur, i - 1));
            }
        }
    }
}

/// Among the `k`-bit parts of `mask`, `successor` steps from each to the
/// next, and from the last to `0`.
pub proof fn lemma_successor(mask: u64, k: nat, idx: int)
    requires
        0 <= idx < combinations(mask, k).len(),
    ensures
        successor(mask, combinations(mask, k)[idx]) == if idx + 1 < combinations(mask, k).len() {
            combinations(mask, k)[idx + 1]
        } else {
            0
        },
{
    lemma_bit_consts();
    lemma_successor_within(mask, k, 64, 0, idx);
    lemma_word_algebra(combinations(mask, k)[idx], 0, 0);
    if idx + 1 < combinations(mask, k).len() {
        lemma_word_algebra(combinations(mask, k)[idx + 1], 0, 0);
    }
}

/// The list is strictly increasing.
pub proof fn lemma_combos_increasing(mask: u64, k: nat, i: int)
    requires
        0 <= i <= 64,
    ensures
        forall|a: int, b: int|
            0 <= a < b < combos_below(mask, k, i).len() ==> #[trigger] combos_below(mask, k, i)[a]
                < #[trigger] combos_below(mask, k, i)[b],
    decreases i,
{
    let all = combos_below(mask, k, i);
    if k != 0 && i > 0 {
        lemma_combos_increasing(mask, k, i - 1);
        if bit_at(mask, i - 1) {
            let without = combos_below(mask, k, i - 1);
            let with = combos_below(mask, (k - 1) as nat, i - 1);
            lemma_combos_increasing(mask, (k - 1) as nat, i - 1);
            lemma_combos_members(mask, k, i - 1);
            lemma_combos_members(mask, (k - 1) as nat, i - 1);
            assert forall|a: int, b: int| 0 <= a < b < all.len() implies #[trigger] all[a]
                < #[trigger] all[b] by {
                if b >= without.len() {
                    let y = with[b - without.len()];
                    assert(is_combo(mask, (k - 1) as nat, i - 1, y));
                    lemma_below_single(y, i - 1);
                    if a >= without.len() {
                        let x = with[a - without.len()];
                        assert(is_combo(mask, (k - 1) as nat, i - 1, x));
                        lemma_below_single(x, i - 1);
                    } else {
                        assert(is_combo(mask, k, i - 1, without[a]));
                        lemma_below_single(without[a], i - 1);
                    }
                }
            }
        }
    }
}

/// Every word made of `k` of the set bits of `mask` below `i` is listed.
pub proof fn lemma_combos_complete(mask: u64, k: nat, i: int, x: u64)
    requires
        0 <= i <= 64,
        is_combo(mask, k, i, x),
    ensures
        combos_below(mask, k, i).contains(x),
    decreases i,
{
    let all = combos_below(mask, k, i);
    if k == 0 {
        lemma_popcount_zero(x);
        assert(all[0] == x);
    } else if i <= 0 {
        lemma_count_below_zero(x, 64);
    } else if !bit_at(mask, i - 1) {
        lemma_combos_complete(mask, k, i - 1, x);
        let before = combos_below(mask, k, i - 1);
        let j = choose|j: int| 0 <= j < before.len() && before[j] == x;
        assert(all[j] == x);
    } else {
        let without = combos_below(mask, k, i - 1);
        let with = combos_below(mask, (k - 1) as nat, i - 1);
        if !bit_at(x, i - 1) {
            lemma_combos_complete(mask, k, i - 1, x);
            let j = choose|j: int| 0 <= j < without.len() && without[j] == x;
            assert(all[j] == x);
        } else {
            let top = single(i - 1);
            let rest = x & !top;
            lemma_bit_ops(x, top);
            lemma_test_single(x, i - 1);
            lemma_word_algebra(top, x, 0);
            lemma_popcount_remove(x, top);
            lemma_popcount_single(i - 1);
            assert(is_combo(mask, (k - 1) as nat, i - 1, rest));
            lemma_combos_complete(mask, (k - 1) as nat, i - 1, rest);
            let j = choose|j: int| 0 <= j < with.len() && with[j] == rest;
            assert(all[without.len() + j] == rest | top);
        }
    }
}

/// What the enumeration of the `k`-bit parts of a word yields: as many
/// words as there are ways to pick `k` of the set bits of `mask`, each made
/// of `k` of those bits, in strictly increasing order, so that none comes
/// twice, and with none left out.
pub proof fn lemma_combinations_exact(mask: u64, k: nat)
    ensures
        combinations(mask, k).len() == binomial(popcount(mask), k),
        forall|j: int|
            0 <= j < combinations(mask, k).len() ==> subset_of(
                #[trigger] combinations(mask, k)[j],
                mask,
            ) && popcount(combinations(mask, k)[j]) == k,
        forall|a: int, b: int|
            0 <= a < b < combinations(mask, k).len() ==> #[trigger] combinations(mask, k)[a]
                < #[trigger] combinations(mask, k)[b],
        forall|x: u64|
            subset_of(x, mask) && popcount(x) == k ==> #[trigger] combinations(mask, k).contains(
                x,
            ),
{
    let all = combinations(mask, k);
    lemma_combos_len(mask, k, 64);
    lemma_combos_members(mask, k, 64);
    lemma_combos_increasing(mask, k, 64);
    assert forall|j: int| 0 <= j < all.len() implies subset_of(#[trigger] all[j], mask)
        && popcount(all[j]) == k by {
        assert(is_combo(mask, k, 64, all[j]));
        lemma_bit_ops(all[j], mask);
        lemma_bits_equal(all[j] & mask, all[j]);
    }
    assert forall|x: u64| subset_of(x, mask) && popcount(x) == k implies #[trigger] all.contains(
        x,
    ) by {
        lemma_popcount_subset(x, mask);
        lemma_combos_complete(mask, k, 64, x);
    }
}

/// A power grows with its base.
pub proof fn lemma_power_grows(m: nat, n: nat, k: nat)
    requires
        m <= n,
    ensures
        power(m, k) <= power(n, k),
    decreases k,
{
    if k > 0 {
        lemma_power_grows(m, n, (k - 1) as nat);
        let a = power(m, (k - 1) as nat);
        let b = power(n, (k - 1) as nat);
        assert(m * a <= n * b) by (nonlinear_arith)
            requires
                m <= n,
                a <= b,
        ;
    }
}

/// There are at most `n` to the `k` ways to pick `k` out of `n`.
pub proof fn lemma_binomial_bound(n: nat, k: nat)
    ensures
        binomial(n, k) <= power(n, k),
    decreases n,
{
    if k != 0 && n != 0 {
        let m = (n - 1) as nat;
        let j = (k - 1) as nat;
        lemma_binomial_bound(m, k);
        lemma_binomial_bound(m, j);
        lemma_power_grows(m, n, j);
        let a = power(m, j);
        let b = power(n, j);
        assert(m * a + a <= n * b) by (nonlinear_arith)
            requires
                m + 1 == n,
                a <= b,
        ;
    }
}

/// A word has at most `64` to the `k` parts of `k` bits: at most `4096`
/// pairs, and at most `2` to the `30` parts of up to five bits.
pub proof fn lemma_combinations_bound(mask: u64, k: nat)
    ensures
        combinations(mask, k).len() <= power(64, k),
        k <= 2 ==> combinations(mask, k).len() <= 4096,
        k <= 5 ==> combinations(mask, k).len() <= 0x4000_0000,
{
    lemma_combos_len(mask, k, 64);
    lemma_count_below_range(mask, 64, 64);
    lemma_binomial_bound(popcount(mask), k);
    lemma_power_grows(popcount(mask), 64, k);
    assert(power(64, 0) == 1);
    assert(power(64, 1) == 64);
    assert(power(64, 2) == 4096);
    assert(power(64, 3) == 262144);
    assert(power(64, 4) == 16777216);
    assert(power(64, 5) == 0x4000_0000);
}

/// A word with fewer than `k` set bits has no part of `k` bits.
pub proof fn lemma_combinations_none(mask: u64, k: nat)
    requires
        popcount(mask) < k,
    ensures
        combinations(mask, k).len() == 0,
{
    lemma_combos_len(mask, k, 64);
    lemma_binomial_positive(popcount(mask), k);
}

} // verus!
