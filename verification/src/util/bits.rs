//! A 64-bit word seen as a set of bit positions `0..64`.
//!
//! Contracts in this crate speak of words through [`bit_at`] and
//! [`popcount`]; the lemmas here connect the machine operators to that view.

use vstd::prelude::*;

verus! {

/// The word whose only set bit is bit `i`.
pub open spec fn single(i: int) -> u64 {
    1u64 << (i as u64)
}

/// Whether bit `i` of `x` is set. False outside `0..64`.
pub open spec fn bit_at(x: u64, i: int) -> bool {
    0 <= i < 64 && (x >> (i as u64)) & 1 == 1
}

/// The number of set bits of `x` at positions below `i`.
pub open spec fn count_below(x: u64, i: int) -> nat
    decreases i,
{
    if i <= 0 {
        0
    } else {
        count_below(x, i - 1) + if bit_at(x, i - 1) { 1nat } else { 0nat }
    }
}

/// The number of set bits of `x`.
pub open spec fn popcount(x: u64) -> nat {
    count_below(x, 64)
}

/// Every bit of `a` is also set in `b`.
pub open spec fn subset_of(a: u64, b: u64) -> bool {
    a & b == a
}

/// The `n` most significant set bits of `x` below position `i`, or all of
/// them where there are fewer.
pub open spec fn top_bits(x: u64, n: nat, i: int) -> u64
    decreases i,
{
    if i <= 0 || n == 0 {
        0
    } else if bit_at(x, i - 1) {
        single(i - 1) | top_bits(x, (n - 1) as nat, i - 1)
    } else {
        top_bits(x, n, i - 1)
    }
}

/// The `n` most significant set bits of `x`, or all of `x` where it has fewer.
pub open spec fn highest_bits(x: u64, n: nat) -> u64 {
    top_bits(x, n, 64)
}

/// The `n` least significant set bits of `x` from position `i` on, or all of
/// them where there are fewer.
pub open spec fn bottom_bits(x: u64, n: nat, i: int) -> u64
    decreases 64 - i,
{
    if i >= 64 || n == 0 {
        0
    } else if bit_at(x, i) {
        single(i) | bottom_bits(x, (n - 1) as nat, i + 1)
    } else {
        bottom_bits(x, n, i + 1)
    }
}

/// The `n` least significant set bits of `x`, or all of `x` where it has fewer.
pub open spec fn lowest_bits(x: u64, n: nat) -> u64 {
    bottom_bits(x, n, 0)
}

/// The bits of `x` below position `i`.
pub open spec fn bits_below(x: u64, i: int) -> u64
    decreases i,
{
    if i <= 0 {
        0
    } else if bit_at(x, i - 1) {
        single(i - 1) | bits_below(x, i - 1)
    } else {
        bits_below(x, i - 1)
    }
}

/// `std`'s `u64::count_ones` returns the number of ones in the binary
/// representation of its argument.
pub assume_specification[ u64::count_ones ](i: u64) -> (r: u32)
    ensures
        r == popcount(i),
;

proof fn lemma_bv_pointwise(x: u64, y: u64, i: u64)
    by (bit_vector)
    requires
        i < 64,
    ensures
        (((x | y) >> i) & 1 == 1) == (((x >> i) & 1 == 1) || ((y >> i) & 1 == 1)),
        (((x & y) >> i) & 1 == 1) == (((x >> i) & 1 == 1) && ((y >> i) & 1 == 1)),
        (((x ^ y) >> i) & 1 == 1) == (((x >> i) & 1 == 1) != ((y >> i) & 1 == 1)),
        (((x & !y) >> i) & 1 == 1) == (((x >> i) & 1 == 1) && !((y >> i) & 1 == 1)),
        ((!x >> i) & 1 == 1) == !((x >> i) & 1 == 1),
        (0u64 >> i) & 1 == 0,
        (x & (1u64 << i) != 0) == ((x >> i) & 1 == 1),
        (x & (1u64 << i) == 0) || (x & (1u64 << i) == (1u64 << i)),
        (1u64 << i) != 0,
        (x >> i) & 1 == 0 || (x >> i) & 1 == 1,
{
}

proof fn lemma_bv_prefix_step(x: u64, y: u64, i: u64)
    by (bit_vector)
    requires
        i < 63,
        x >> ((i + 1) as u64) == y >> ((i + 1) as u64),
        (x >> i) & 1 == (y >> i) & 1,
    ensures
        x >> i == y >> i,
{
}

proof fn lemma_bv_prefix_ends(x: u64, y: u64)
    by (bit_vector)
    ensures
        (x >> 63) & 1 == (y >> 63) & 1 ==> x >> 63 == y >> 63,
        x >> 0 == x,
        y >> 0 == y,
{
}

proof fn lemma_bv_single(i: u64, j: u64)
    by (bit_vector)
    requires
        i < 64,
        j < 64,
    ensures
        (((1u64 << i) >> j) & 1 == 1) == (i == j),
{
}

/// How `|`, `&`, `^`, `& !` and `!` act on each bit.
pub proof fn lemma_bit_ops(x: u64, y: u64)
    ensures
        forall|i: int| #[trigger] bit_at(x | y, i) == (bit_at(x, i) || bit_at(y, i)),
        forall|i: int| #[trigger] bit_at(x & y, i) == (bit_at(x, i) && bit_at(y, i)),
        forall|i: int| #[trigger] bit_at(x ^ y, i) == (bit_at(x, i) != bit_at(y, i)),
        forall|i: int| #[trigger] bit_at(x & !y, i) == (bit_at(x, i) && !bit_at(y, i)),
        forall|i: int| 0 <= i < 64 ==> #[trigger] bit_at(!x, i) == !bit_at(x, i),
{
    assert forall|i: int| #[trigger] bit_at(x | y, i) == (bit_at(x, i) || bit_at(y, i)) by {
        if 0 <= i < 64 {
            lemma_bv_pointwise(x, y, i as u64);
        }
    }
    assert forall|i: int| #[trigger] bit_at(x & y, i) == (bit_at(x, i) && bit_at(y, i)) by {
        if 0 <= i < 64 {
            lemma_bv_pointwise(x, y, i as u64);
        }
    }
    assert forall|i: int| #[trigger] bit_at(x ^ y, i) == (bit_at(x, i) != bit_at(y, i)) by {
        if 0 <= i < 64 {
            lemma_bv_pointwise(x, y, i as u64);
        }
    }
    assert forall|i: int| #[trigger] bit_at(x & !y, i) == (bit_at(x, i) && !bit_at(y, i)) by {
        if 0 <= i < 64 {
            lemma_bv_pointwise(x, y, i as u64);
        }
    }
    assert forall|i: int| 0 <= i < 64 implies #[trigger] bit_at(!x, i) == !bit_at(x, i) by {
        lemma_bv_pointwise(x, y, i as u64);
    }
}

/// The bits of `0` and of a single-bit word.
pub proof fn lemma_bit_consts()
    ensures
        forall|i: int| !#[trigger] bit_at(0, i),
        forall|i: int, j: int| 0 <= i < 64 ==> (#[trigger] bit_at(single(i), j) == (i == j)),
        forall|i: int| 0 <= i < 64 ==> #[trigger] single(i) != 0,
{
    assert forall|i: int| !#[trigger] bit_at(0, i) by {
        if 0 <= i < 64 {
            lemma_bv_pointwise(0, 0, i as u64);
        }
    }
    assert forall|i: int, j: int| 0 <= i < 64 implies (#[trigger] bit_at(single(i), j) == (i
        == j)) by {
        if 0 <= j < 64 {
            lemma_bv_single(i as u64, j as u64);
        }
    }
    assert forall|i: int| 0 <= i < 64 implies #[trigger] single(i) != 0 by {
        lemma_bv_pointwise(0, 0, i as u64);
    }
}

/// The identities of `|`, `&`, `^` and `!` that the proofs of this crate use.
pub proof fn lemma_word_algebra(a: u64, b: u64, c: u64)
    by (bit_vector)
    ensures
        (a | b) | c == a | (b | c),
        a | b == b | a,
        a & b == b & a,
        a | 0 == a,
        a & a == a,
        a & !0 == a,
        (a | b) & c == (a & c) | (b & c),
        (a | b) & !b == a & !b,
        (a & !b) & b == 0,
        (a & !b) & !c == a & !(b | c),
        (a & b) & a == a & b,
        (a & !b) & a == a & !b,
        a & (a | b) == a,
        a & b == a ==> (a | b == b),
        a & b == a ==> ((b & !a) | a == b),
        a & b == a && b & c == b ==> a & c == a,
        a & c == 0 && b & c == 0 ==> (a | b) & c == 0,
        a & (b & !c) == a ==> a & b == a && a & c == 0,
        a & b == 0 ==> b & !(a | c) == b & !c,
        b != 0 ==> (a | b) | c != 0,
        a & (b & !(b & c)) == a ==> a & c == 0 && a & b == a,
        (a & b) & b == a & b,
        a & (b & !c) == a ==> a & b == a,
{
}

/// Testing a word against a single-bit word tells whether that bit is set.
pub proof fn lemma_test_single(x: u64, i: int)
    requires
        0 <= i < 64,
    ensures
        (x & single(i) != 0) == bit_at(x, i),
        (x & single(i) == 0) == !bit_at(x, i),
        bit_at(x, i) ==> x & single(i) == single(i),
{
    lemma_bv_pointwise(x, x, i as u64);
}

proof fn lemma_bv_magnitude(x: u64, i: u64)
    by (bit_vector)
    requires
        i < 64,
        x >> i == 0u64 >> i,
    ensures
        x < (1u64 << i),
        x & (1u64 << i) == 0,
        (x | (1u64 << i)) == x + (1u64 << i),
{
}

proof fn lemma_agree_from(x: u64, y: u64, i: int)
    requires
        0 <= i < 64,
        forall|j: int| i <= j < 64 ==> bit_at(x, j) == bit_at(y, j),
    ensures
        x >> (i as u64) == y >> (i as u64),
    decreases 64 - i,
{
    assert(bit_at(x, i) == bit_at(y, i));
    lemma_bv_pointwise(x, y, i as u64);
    lemma_bv_pointwise(y, x, i as u64);
    if i == 63 {
        lemma_bv_prefix_ends(x, y);
    } else {
        lemma_agree_from(x, y, i + 1);
        lemma_bv_prefix_step(x, y, i as u64);
    }
}

/// Two words with the same bits are the same word.
pub proof fn lemma_bits_equal(x: u64, y: u64)
    requires
        forall|i: int| 0 <= i < 64 ==> bit_at(x, i) == bit_at(y, i),
    ensures
        x == y,
{
    lemma_agree_from(x, y, 0);
    lemma_bv_prefix_ends(x, y);
}

/// A word whose bits all lie below position `i` is smaller than the single
/// bit at `i`, and gains exactly that much when the bit is added.
pub proof fn lemma_below_single(x: u64, i: int)
    requires
        0 <= i < 64,
        forall|q: int| i <= q < 64 ==> !bit_at(x, q),
    ensures
        x < single(i),
        x & single(i) == 0,
        x | single(i) == x + single(i),
{
    lemma_bit_consts();
    lemma_agree_from(x, 0, i);
    lemma_bv_magnitude(x, i as u64);
}

/// At most `i` bits are set below position `i`, and the count grows with `i`.
pub proof fn lemma_count_below_range(x: u64, i: int, j: int)
    requires
        0 <= i <= j,
    ensures
        count_below(x, i) <= i,
        count_below(x, i) <= count_below(x, j),
        count_below(x, j) - count_below(x, i) <= j - i,
    decreases j,
{
    if i < j {
        lemma_count_below_range(x, i, j - 1);
    } else {
        if i > 0 {
            lemma_count_below_range(x, i - 1, i - 1);
        }
    }
}

/// Where each bit of `a` below `i` is a bit of `b`, `a` has no more bits there.
pub proof fn lemma_count_below_le(a: u64, b: u64, i: int)
    requires
        forall|j: int| 0 <= j < i ==> (bit_at(a, j) ==> bit_at(b, j)),
    ensures
        count_below(a, i) <= count_below(b, i),
    decreases i,
{
    if i > 0 {
        lemma_count_below_le(a, b, i - 1);
    }
}

/// Where `a` and `b` part the bits of `c` below `i` between them, the counts add up.
pub proof fn lemma_count_below_split(c: u64, a: u64, b: u64, i: int)
    requires
        forall|j: int| 0 <= j < i ==> (bit_at(c, j) <==> (bit_at(a, j) || bit_at(b, j))),
        forall|j: int| 0 <= j < i ==> !(bit_at(a, j) && bit_at(b, j)),
    ensures
        count_below(c, i) == count_below(a, i) + count_below(b, i),
    decreases i,
{
    if i > 0 {
        lemma_count_below_split(c, a, b, i - 1);
    }
}

/// No bit below `i` is set exactly when the count below `i` is zero.
pub proof fn lemma_count_below_zero(x: u64, i: int)
    ensures
        count_below(x, i) == 0 <==> (forall|j: int| 0 <= j < i ==> !bit_at(x, j)),
    decreases i,
{
    if i > 0 {
        lemma_count_below_zero(x, i - 1);
    }
}

/// A word without bits from position `lo` on has all its bits below `lo`.
pub proof fn lemma_count_below_all(x: u64, lo: int)
    requires
        0 <= lo <= 64,
        forall|j: int| lo <= j < 64 ==> !bit_at(x, j),
    ensures
        count_below(x, lo) == popcount(x),
    decreases 64 - lo,
{
    if lo < 64 {
        lemma_count_below_all(x, lo + 1);
    }
}

/// Only `0` has no set bit.
pub proof fn lemma_popcount_zero(x: u64)
    ensures
        popcount(x) == 0 <==> x == 0,
{
    lemma_count_below_zero(x, 64);
    lemma_bit_consts();
    if popcount(x) == 0 {
        lemma_bits_equal(x, 0);
    }
}

/// A single-bit word has one set bit, and it lies at its own position.
pub proof fn lemma_popcount_single(i: int)
    requires
        0 <= i < 64,
    ensures
        popcount(single(i)) == 1,
        count_below(single(i), i) == 0,
        count_below(single(i), i + 1) == 1,
{
    lemma_bit_consts();
    lemma_count_below_zero(single(i), i);
    lemma_count_below_all(single(i), i + 1);
}

/// The bits of two disjoint words add up.
pub proof fn lemma_popcount_disjoint(a: u64, b: u64)
    requires
        a & b == 0,
    ensures
        popcount(a | b) == popcount(a) + popcount(b),
{
    lemma_bit_ops(a, b);
    lemma_bit_consts();
    assert forall|j: int| 0 <= j < 64 implies !(bit_at(a, j) && bit_at(b, j)) by {
        assert(!bit_at(a & b, j));
    }
    lemma_count_below_split(a | b, a, b, 64);
}

/// A part of a word and the rest of it hold all its bits between them.
pub proof fn lemma_popcount_remove(a: u64, b: u64)
    ensures
        popcount(a & !b) + popcount(a & b) == popcount(a),
        popcount(a & b) <= popcount(b),
        subset_of(b, a) ==> popcount(a & !b) == popcount(a) - popcount(b),
{
    lemma_bit_ops(a, b);
    lemma_bit_ops(b, a);
    lemma_count_below_split(a, a & !b, a & b, 64);
    lemma_count_below_le(a & b, b, 64);
    if subset_of(b, a) {
        assert(b & a == b);
        assert forall|j: int| 0 <= j < 64 implies bit_at(a & b, j) == bit_at(b, j) by {
            assert(bit_at(b & a, j) == (bit_at(b, j) && bit_at(a, j)));
        }
        lemma_bits_equal(a & b, b);
    }
}

/// A subset has no more bits than the whole.
pub proof fn lemma_popcount_subset(a: u64, b: u64)
    requires
        subset_of(a, b),
    ensures
        popcount(a) <= popcount(b),
        forall|i: int| bit_at(a, i) ==> bit_at(b, i),
{
    lemma_bit_ops(a, b);
    lemma_count_below_le(a, b, 64);
}

/// Words with the same bits below `i` have the same count there.
pub proof fn lemma_count_below_same(a: u64, b: u64, i: int)
    requires
        forall|j: int| 0 <= j < i ==> bit_at(a, j) == bit_at(b, j),
    ensures
        count_below(a, i) == count_below(b, i),
{
    lemma_count_below_le(a, b, i);
    lemma_count_below_le(b, a, i);
}

/// A word with every bit below `i` set has `i` bits there.
pub proof fn lemma_count_all_set(x: u64, i: int)
    requires
        0 <= i,
        forall|j: int| 0 <= j < i ==> bit_at(x, j),
    ensures
        count_below(x, i) == i,
    decreases i,
{
    if i > 0 {
        lemma_count_all_set(x, i - 1);
    }
}

/// Crossing unset bits does not change the count.
pub proof fn lemma_count_below_skip(x: u64, lo: int, hi: int)
    requires
        lo <= hi,
        forall|j: int| lo <= j < hi ==> !bit_at(x, j),
    ensures
        count_below(x, hi) == count_below(x, lo),
    decreases hi - lo,
{
    if lo < hi {
        lemma_count_below_skip(x, lo, hi - 1);
    }
}

/// Unset bits at the top of the range do not matter to `top_bits`.
pub proof fn lemma_top_bits_skip(x: u64, n: nat, lo: int, hi: int)
    requires
        lo <= hi,
        forall|j: int| lo <= j < hi ==> !bit_at(x, j),
    ensures
        top_bits(x, n, hi) == top_bits(x, n, lo),
    decreases hi - lo,
{
    if lo < hi {
        lemma_top_bits_skip(x, n, lo, hi - 1);
    }
}

/// A bit belongs to `top_bits(x, n, i)` exactly when it is a bit of `x` below
/// `i` with fewer than `n` bits of `x` between it and `i`.
pub proof fn lemma_top_bits_members(x: u64, n: nat, i: int)
    requires
        0 <= i <= 64,
    ensures
        forall|q: int| #[trigger]
            bit_at(top_bits(x, n, i), q) <==> q < i && bit_at(x, q) && count_below(x, i)
                - count_below(x, q + 1) < n,
    decreases i,
{
    lemma_bit_consts();
    assert forall|q: int| #[trigger]
        bit_at(top_bits(x, n, i), q) <==> q < i && bit_at(x, q) && count_below(x, i)
            - count_below(x, q + 1) < n by {
        if 0 <= q < i {
            lemma_count_below_range(x, q + 1, i);
        }
        if i <= 0 || n == 0 {
        } else if bit_at(x, i - 1) {
            let rest = top_bits(x, (n - 1) as nat, i - 1);
            lemma_top_bits_members(x, (n - 1) as nat, i - 1);
            lemma_bit_ops(single(i - 1), rest);
            assert(bit_at(rest, q) <==> q < i - 1 && bit_at(x, q) && count_below(x, i - 1)
                - count_below(x, q + 1) < n - 1);
        } else {
            lemma_top_bits_members(x, n, i - 1);
            assert(bit_at(top_bits(x, n, i - 1), q) <==> q < i - 1 && bit_at(x, q) && count_below(
                x,
                i - 1,
            ) - count_below(x, q + 1) < n);
        }
    }
}

/// `top_bits(x, n, i)` is a part of `x` with `n` bits, or with all the bits
/// of `x` below `i` where there are fewer.
pub proof fn lemma_top_bits_count(x: u64, n: nat, i: int)
    requires
        0 <= i <= 64,
    ensures
        subset_of(top_bits(x, n, i), x),
        popcount(top_bits(x, n, i)) == if n <= count_below(x, i) {
            n
        } else {
            count_below(x, i)
        },
    decreases i,
{
    let t = top_bits(x, n, i);
    lemma_top_bits_members(x, n, i);
    lemma_bit_ops(t, x);
    lemma_bits_equal(t & x, t);
    lemma_bit_consts();
    if i <= 0 || n == 0 {
        lemma_popcount_zero(0);
    } else if bit_at(x, i - 1) {
        let rest = top_bits(x, (n - 1) as nat, i - 1);
        lemma_top_bits_count(x, (n - 1) as nat, i - 1);
        lemma_top_bits_members(x, (n - 1) as nat, i - 1);
        lemma_count_below_split(t, single(i - 1), rest, 64);
        lemma_popcount_single(i - 1);
    } else {
        lemma_top_bits_count(x, n, i - 1);
    }
}

/// Unset bits at the bottom of the range do not matter to `bottom_bits`.
pub proof fn lemma_bottom_bits_skip(x: u64, n: nat, lo: int, hi: int)
    requires
        0 <= lo <= hi,
        forall|j: int| lo <= j < hi ==> !bit_at(x, j),
    ensures
        bottom_bits(x, n, lo) == bottom_bits(x, n, hi),
    decreases hi - lo,
{
    if lo < hi {
        lemma_bottom_bits_skip(x, n, lo + 1, hi);
    }
}

/// A bit belongs to `bottom_bits(x, n, i)` exactly when it is a bit of `x`
/// from `i` on with fewer than `n` bits of `x` between `i` and it.
pub proof fn lemma_bottom_bits_members(x: u64, n: nat, i: int)
    requires
        0 <= i <= 64,
    ensures
        forall|q: int| #[trigger]
            bit_at(bottom_bits(x, n, i), q) <==> i <= q && bit_at(x, q) && count_below(x, q)
                - count_below(x, i) < n,
    decreases 64 - i,
{
    lemma_bit_consts();
    assert forall|q: int| #[trigger]
        bit_at(bottom_bits(x, n, i), q) <==> i <= q && bit_at(x, q) && count_below(x, q)
            - count_below(x, i) < n by {
        if i <= q < 64 {
            lemma_count_below_range(x, i + 1, if q >= i + 1 {
                q
            } else {
                i + 1
            });
        }
        if i >= 64 || n == 0 {
        } else if bit_at(x, i) {
            let rest = bottom_bits(x, (n - 1) as nat, i + 1);
            lemma_bottom_bits_members(x, (n - 1) as nat, i + 1);
            lemma_bit_ops(single(i), rest);
            assert(bit_at(rest, q) <==> i + 1 <= q && bit_at(x, q) && count_below(x, q)
                - count_below(x, i + 1) < n - 1);
        } else {
            lemma_bottom_bits_members(x, n, i + 1);
            assert(bit_at(bottom_bits(x, n, i + 1), q) <==> i + 1 <= q && bit_at(x, q)
                && count_below(x, q) - count_below(x, i + 1) < n);
        }
    }
}

/// Crossing unset bits adds nothing to `bits_below`.
pub proof fn lemma_bits_below_skip(x: u64, lo: int, hi: int)
    requires
        lo <= hi,
        forall|j: int| lo <= j < hi ==> !bit_at(x, j),
    ensures
        bits_below(x, hi) == bits_below(x, lo),
    decreases hi - lo,
{
    if lo < hi {
        lemma_bits_below_skip(x, lo, hi - 1);
    }
}

/// A bit belongs to `bits_below(x, i)` exactly when it is a bit of `x` below `i`.
pub proof fn lemma_bits_below_members(x: u64, i: int)
    requires
        0 <= i <= 64,
    ensures
        forall|q: int| #[trigger] bit_at(bits_below(x, i), q) <==> q < i && bit_at(x, q),
    decreases i,
{
    lemma_bit_consts();
    if i > 0 {
        lemma_bits_below_members(x, i - 1);
        lemma_bit_ops(single(i - 1), bits_below(x, i - 1));
    }
}

/// The most significant bits of a word are part of it: as many as asked
/// for, or the whole word where it has no more.
pub proof fn lemma_highest_bits(x: u64, n: nat)
    ensures
        subset_of(highest_bits(x, n), x),
        popcount(highest_bits(x, n)) == if n <= popcount(x) {
            n
        } else {
            popcount(x)
        },
        popcount(x) <= n ==> highest_bits(x, n) == x,
{
    lemma_top_bits_count(x, n, 64);
    if popcount(x) <= n {
        lemma_top_bits_members(x, n, 64);
        assert forall|q: int| 0 <= q < 64 implies bit_at(highest_bits(x, n), q) == bit_at(x, q) by {
        }
        lemma_bits_equal(highest_bits(x, n), x);
    }
}

/// Parts of two words that share no bit share no bit.
pub proof fn lemma_disjoint_parts(a: u64, g: u64, b: u64, h: u64)
    requires
        subset_of(a, g),
        subset_of(b, h),
        g & h == 0,
    ensures
        a & b == 0,
{
    lemma_popcount_subset(a, g);
    lemma_popcount_subset(b, h);
    lemma_bit_ops(g, h);
    lemma_bit_ops(a, b);
    lemma_bit_consts();
    assert forall|q: int| 0 <= q < 64 implies bit_at(a & b, q) == bit_at(0, q) by {
        assert(!bit_at(g & h, q));
    }
    lemma_bits_equal(a & b, 0);
}

/// Two parts of a word that share no bit make a part with the bits of both.
pub proof fn lemma_join_parts(a: u64, b: u64, word: u64)
    requires
        subset_of(a, word),
        subset_of(b, word),
        a & b == 0,
    ensures
        subset_of(a | b, word),
        popcount(a | b) == popcount(a) + popcount(b),
{
    lemma_word_algebra(a, b, word);
    lemma_popcount_disjoint(a, b);
}

/// A part of a word together with the `n` highest of its other bits: a part
/// of the word with `n` bits more, where the word has them.
pub proof fn lemma_part_with_highest(word: u64, part: u64, n: nat)
    requires
        subset_of(part, word),
        popcount(part) + n <= popcount(word),
    ensures
        subset_of(part | highest_bits(word & !part, n), word),
        popcount(part | highest_bits(word & !part, n)) == popcount(part) + n,
{
    let rest = word & !part;
    let top = highest_bits(rest, n);
    lemma_popcount_remove(word, part);
    lemma_highest_bits(rest, n);
    lemma_word_algebra(top, rest, word);
    lemma_word_algebra(word, part, 0);
    assert(rest & part == 0);
    lemma_disjoint_parts(top, rest, part, part);
    lemma_word_algebra(top, part, 0);
    lemma_join_parts(part, top, word);
}

/// A word other than `0` has a set bit.
pub proof fn lemma_some_bit(x: u64) -> (q: int)
    requires
        x != 0,
    ensures
        bit_at(x, q),
{
    lemma_popcount_zero(x);
    lemma_count_below_zero(x, 64);
    choose|q: int| 0 <= q < 64 && bit_at(x, q)
}

/// A word without a set bit is `0`.
pub proof fn lemma_no_bit(x: u64)
    requires
        forall|q: int| 0 <= q < 64 ==> !bit_at(x, q),
    ensures
        x == 0,
{
    lemma_bit_consts();
    lemma_bits_equal(x, 0);
}

} // verus!
