//! Single bits of a 128-bit mask, and how the bitwise operators move them.

use vstd::prelude::*;

verus! {

/// Whether slot `i` of `m` is set. No slot outside `0..128` is ever set.
pub open spec fn bit(m: u128, i: int) -> bool {
    0 <= i < 128 && (m >> (i as u128)) & 1 == 1
}

/// The slots that are set in `m`.
pub open spec fn slots_of(m: u128) -> spec_fn(int) -> bool {
    |j: int| bit(m, j)
}

/// The slots of `cells` that are not set in `taken`.
pub open spec fn free_in(cells: u128, taken: u128) -> spec_fn(int) -> bool {
    |j: int| bit(cells, j) && !bit(taken, j)
}

/// How many of the numbers below `n` satisfy `f`.
pub open spec fn count_below(n: nat, f: spec_fn(int) -> bool) -> nat
    decreases n,
{
    if n == 0 {
        0
    } else {
        count_below((n - 1) as nat, f) + if f(n - 1) {
            1nat
        } else {
            0nat
        }
    }
}

/// `f`, read from `s` on.
pub open spec fn shifted(f: spec_fn(int) -> bool, s: int) -> spec_fn(int) -> bool {
    |r: int| f(s + r)
}

/// The empty mask holds no slot.
pub proof fn lemma_bit_zero(i: int)
    ensures
        !bit(0u128, i),
{
    if 0 <= i < 128 {
        let j = i as u128;
        assert((0u128 >> j) & 1 == 0) by (bit_vector);
    }
}

/// A slot is in the intersection of two masks when it is in both.
pub proof fn lemma_bit_and(a: u128, b: u128, i: int)
    ensures
        bit(a & b, i) == (bit(a, i) && bit(b, i)),
{
    if 0 <= i < 128 {
        let j = i as u128;
        assert((((a & b) >> j) & 1 == 1) == (((a >> j) & 1 == 1) && ((b >> j) & 1 == 1)))
            by (bit_vector);
    }
}

/// A slot is in the union of two masks when it is in either.
pub proof fn lemma_bit_or(a: u128, b: u128, i: int)
    ensures
        bit(a | b, i) == (bit(a, i) || bit(b, i)),
{
    if 0 <= i < 128 {
        let j = i as u128;
        assert((((a | b) >> j) & 1 == 1) == (((a >> j) & 1 == 1) || ((b >> j) & 1 == 1)))
            by (bit_vector);
    }
}

/// A slot of the mask is in the complement when it is not in the mask.
pub proof fn lemma_bit_not(a: u128, i: int)
    requires
        0 <= i < 128,
    ensures
        bit(!a, i) == !bit(a, i),
{
    let j = i as u128;
    assert((((!a) >> j) & 1 == 1) == !((a >> j) & 1 == 1)) by (bit_vector)
        requires
            j < 128,
    ;
}

/// Shifting right by `d` brings slot `i + d` down to slot `i`.
pub proof fn lemma_bit_shr(a: u128, d: u128, i: int)
    requires
        d < 128,
        0 <= i,
    ensures
        bit(a >> d, i) == bit(a, i + d),
{
    if i < 128 {
        let j = i as u128;
        if i + d < 128 {
            let k = (i + d) as u128;
            assert((((a >> d) >> j) & 1 == 1) == ((a >> k) & 1 == 1)) by (bit_vector)
                requires
                    d < 128,
                    j < 128,
                    k == j + d,
                    k < 128,
            ;
        } else {
            assert(((a >> d) >> j) & 1 == 0) by (bit_vector)
                requires
                    d < 128,
                    j < 128,
                    j + d >= 128,
            ;
        }
    }
}

/// Shifting left by `d` lifts slot `i - d` up to slot `i`; what would pass
/// slot 127 is lost.
pub proof fn lemma_bit_shl(a: u128, d: u128, i: int)
    requires
        d < 128,
    ensures
        bit(a << d, i) == (d <= i < 128 && bit(a, i - d)),
{
    if 0 <= i < 128 {
        let j = i as u128;
        if i >= d {
            let k = (i - d) as u128;
            assert((((a << d) >> j) & 1 == 1) == ((a >> k) & 1 == 1)) by (bit_vector)
                requires
                    d < 128,
                    j < 128,
                    j >= d,
                    k == j - d,
            ;
        } else {
            assert(((a << d) >> j) & 1 == 0) by (bit_vector)
                requires
                    d < 128,
                    j < d,
            ;
        }
    }
}

/// The mask `1 << k` holds slot `k` and nothing else.
pub proof fn lemma_bit_single(k: u128, i: int)
    requires
        k < 128,
    ensures
        bit(1u128 << k, i) == (i == k),
{
    if 0 <= i < 128 {
        let j = i as u128;
        assert((((1u128 << k) >> j) & 1 == 1) == (j == k)) by (bit_vector)
            requires
                k < 128,
                j < 128,
        ;
    }
}

/// The mask of `width` set slots from slot `s` on.
pub proof fn lemma_bit_window(full: u128, width: u128, s: u128, i: int)
    requires
        1 <= width < 128,
        s + width <= 128,
        full == (1u128 << width) - 1,
    ensures
        bit(full << s, i) <==> s <= i < s + width,
{
    lemma_bit_shl(full, s, i);
    if s <= i < 128 {
        let j = (i - s) as u128;
        assert(((full >> j) & 1 == 1) <==> j < width) by (bit_vector)
            requires
                width < 128,
                full == (1u128 << width) - 1,
                j < 128,
        ;
    }
}

/// Two masks that share no slot have an empty intersection.
pub proof fn lemma_disjoint(a: u128, b: u128)
    requires
        forall|i: int| !(bit(a, i) && bit(b, i)),
    ensures
        a & b == 0,
{
    if a & b != 0 {
        let i = lemma_nonzero_has_bit(a & b);
        lemma_bit_and(a, b, i);
    }
}

/// A mask meets a one-slot mask exactly when it holds that slot.
pub proof fn lemma_mask_meets_slot(a: u128, s: u128, k: int)
    requires
        forall|i: int| bit(s, i) <==> i == k,
        0 <= k < 128,
    ensures
        a & s != 0 <==> bit(a, k),
{
    if a & s != 0 {
        let i = lemma_nonzero_has_bit(a & s);
        lemma_bit_and(a, s, i);
    } else {
        lemma_bit_and(a, s, k);
        lemma_bit_zero(k);
    }
}

/// A one shifted left inside the mask is still there.
pub proof fn lemma_shifted_one(k: u128)
    requires
        k < 128,
    ensures
        1u128 << k >= 1,
{
    assert(1u128 << k >= 1) by (bit_vector)
        requires
            k < 128,
    ;
}

/// The union of two masks does not depend on their order.
pub proof fn lemma_or_commutes(a: u128, b: u128)
    ensures
        a | b == b | a,
{
    assert(a | b == b | a) by (bit_vector);
}

/// A mask that is not zero has a set slot.
pub proof fn lemma_nonzero_has_bit(a: u128) -> (i: int)
    requires
        a != 0,
    ensures
        bit(a, i),
    decreases a,
{
    if a & 1 == 1 {
        assert(a >> 0u128 == a) by (bit_vector);
        0
    } else {
        let h = a >> 1u128;
        assert(h != 0 && h < a) by (bit_vector)
            requires
                a != 0,
                a & 1 != 1,
                h == a >> 1u128,
        ;
        let j = lemma_nonzero_has_bit(h);
        let ju = j as u128;
        assert(ju < 127 && (a >> ((ju + 1) as u128)) & 1 == 1) by (bit_vector)
            requires
                ju < 128,
                h == a >> 1u128,
                (h >> ju) & 1 == 1,
        ;
        j + 1
    }
}

/// No more than `n` numbers below `n` satisfy `f`.
pub proof fn lemma_count_bound(n: nat, f: spec_fn(int) -> bool)
    ensures
        count_below(n, f) <= n,
    decreases n,
{
    if n > 0 {
        lemma_count_bound((n - 1) as nat, f);
    }
}

/// Two conditions that agree below `n` hold of equally many numbers below
/// `n`.
pub proof fn lemma_count_agree(n: nat, f: spec_fn(int) -> bool, g: spec_fn(int) -> bool)
    requires
        forall|i: int| 0 <= i < n ==> #[trigger] f(i) == g(i),
    ensures
        count_below(n, f) == count_below(n, g),
    decreases n,
{
    if n > 0 {
        lemma_count_agree((n - 1) as nat, f, g);
    }
}

/// What holds only in the window of `w` numbers from `s` on can be counted
/// inside the window.
pub proof fn lemma_count_window(f: spec_fn(int) -> bool, s: nat, w: nat, n: nat)
    requires
        forall|j: int| #[trigger] f(j) ==> s <= j < s + w,
        s + w <= n,
    ensures
        count_below(n, f) == count_below(w, shifted(f, s as int)),
    decreases n,
{
    if n == s + w {
        lemma_count_window_top(f, s, w);
    } else {
        lemma_count_window(f, s, w, (n - 1) as nat);
    }
}

proof fn lemma_count_window_top(f: spec_fn(int) -> bool, s: nat, w: nat)
    requires
        forall|j: int| #[trigger] f(j) ==> s <= j,
    ensures
        count_below(s + w, f) == count_below(w, shifted(f, s as int)),
    decreases w,
{
    if w == 0 {
        lemma_count_none(s, f);
    } else {
        lemma_count_window_top(f, s, (w - 1) as nat);
        assert(shifted(f, s as int)(w - 1) == f(s + w - 1));
    }
}

/// What holds of no number below `n` is counted as zero below `n`.
pub proof fn lemma_count_none(n: nat, f: spec_fn(int) -> bool)
    requires
        forall|j: int| #[trigger] f(j) ==> n <= j,
    ensures
        count_below(n, f) == 0,
    decreases n,
{
    if n > 0 {
        lemma_count_none((n - 1) as nat, f);
    }
}

/// What holds of no number from `n` on is counted below `n`.
pub proof fn lemma_count_tail(n: nat, to: nat, f: spec_fn(int) -> bool)
    requires
        n <= to,
        forall|j: int| n <= j < to ==> !#[trigger] f(j),
    ensures
        count_below(to, f) == count_below(n, f),
    decreases to - n,
{
    if n < to {
        lemma_count_tail(n, (to - 1) as nat, f);
    }
}

/// The number of set slots of `m`.
pub fn count_ones(m: u128) -> (n: u32)
    ensures
        n == count_below(128, slots_of(m)),
        n <= 128,
{
    let mut n: u32 = 0;
    let mut i: u32 = 0;
    let mut rest: u128 = m;
    proof {
        assert(m >> 0u32 == m) by (bit_vector);
    }
    while rest != 0
        invariant
            i <= 128,
            i < 128 ==> rest == m >> i,
            i == 128 ==> rest == 0,
            n == count_below(i as nat, slots_of(m)),
            n <= i,
        decreases 128 - i,
    {
        if rest & 1 == 1 {
            n += 1;
        }
        proof {
            assert(i < 127 ==> (m >> i) >> 1u32 == m >> ((i + 1) as u32)) by (bit_vector)
                requires
                    i < 128,
            ;
            assert(i == 127 ==> (m >> i) >> 1u32 == 0) by (bit_vector);
        }
        rest = rest >> 1u32;
        i += 1;
    }
    proof {
        assert forall|j: int| i <= j < 128 implies !#[trigger] slots_of(m)(j) by {
            lemma_bit_shr(m, i as u128, j - i);
            lemma_bit_zero(j - i);
        }
        lemma_count_tail(i as nat, 128, slots_of(m));
    }
    n
}

} // verus!
