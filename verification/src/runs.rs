//! Runs: slots at equal distances that all belong to one side.

use vstd::prelude::*;
use crate::bits::{
    bit, free_in, lemma_bit_and, lemma_bit_not, lemma_bit_or, lemma_bit_shl, lemma_bit_shr,
    lemma_bit_zero, slots_of,
};

verus! {

/// The `k`-th slot of a walk that starts at `start` and advances by `step`.
pub open spec fn nth_slot(start: int, step: int, k: int) -> int {
    start + k * step
}

/// The `len` slots from `start`, `step` apart, all satisfy `own`.
pub open spec fn run_at(own: spec_fn(int) -> bool, start: int, step: int, len: nat) -> bool {
    forall|k: int| 0 <= k < len ==> own(#[trigger] nth_slot(start, step, k))
}

/// Slot `j` is free and touches a run of `len` own slots along `step`: the
/// run starts one step after `j`, or ends one step before it.
pub open spec fn open_end(
    own: spec_fn(int) -> bool,
    free: spec_fn(int) -> bool,
    step: int,
    len: nat,
    j: int,
) -> bool {
    free(j) && (run_at(own, j + step, step, len) || run_at(own, j - len * step, step, len))
}

/// The slots that are open ends of runs of `len` own slots along `step`.
pub open spec fn open_ends(
    own: spec_fn(int) -> bool,
    free: spec_fn(int) -> bool,
    step: int,
    len: nat,
) -> spec_fn(int) -> bool {
    |j: int| open_end(own, free, step, len, j)
}

/// A run of one slot is that slot.
pub proof fn lemma_run_one(own: spec_fn(int) -> bool, start: int, step: int)
    ensures
        run_at(own, start, step, 1) <==> own(start),
{
    assert(nth_slot(start, step, 0) == start);
}

/// A run grows by one slot when the run that starts one step later is as
/// long as it is.
pub proof fn lemma_run_step(own: spec_fn(int) -> bool, start: int, step: int, len: nat)
    requires
        1 <= len,
    ensures
        run_at(own, start, step, len + 1) <==> run_at(own, start, step, len) && run_at(
            own,
            start + step,
            step,
            len,
        ),
{
    assert forall|k: int| #[trigger]
        nth_slot(start + step, step, k) == nth_slot(start, step, k + 1) by {
        assert((k + 1) * step == k * step + step) by (nonlinear_arith);
    }
    if run_at(own, start, step, len + 1) {
        assert forall|k: int| 0 <= k < len implies own(
            #[trigger] nth_slot(start + step, step, k),
        ) by {
            assert(own(nth_slot(start, step, k + 1)));
        }
    }
    if run_at(own, start, step, len) && run_at(own, start + step, step, len) {
        assert forall|k: int| 0 <= k < len + 1 implies own(#[trigger] nth_slot(start, step, k)) by {
            if k == len {
                assert(own(nth_slot(start + step, step, k - 1)));
            }
        }
    }
}

/// The slots at which a run of `len` set slots of `mask`, `step` apart,
/// starts.
pub fn run_starts(mask: u128, step: u8, len: u8) -> (m: u128)
    requires
        1 <= len,
        step < 128,
    ensures
        forall|j: int| bit(m, j) <==> run_at(slots_of(mask), j, step as int, len as nat),
{
    let mut m = mask;
    let mut t: u8 = 1;
    proof {
        assert forall|j: int| bit(m, j) <==> run_at(slots_of(mask), j, step as int, 1) by {
            lemma_run_one(slots_of(mask), j, step as int);
        }
    }
    while t < len
        invariant
            1 <= t <= len,
            step < 128,
            forall|j: int| bit(m, j) <==> run_at(slots_of(mask), j, step as int, t as nat),
        decreases len - t,
    {
        let ghost before = m;
        m = m & (m >> step);
        proof {
            assert forall|j: int| bit(m, j) <==> run_at(
                slots_of(mask),
                j,
                step as int,
                (t + 1) as nat,
            ) by {
                lemma_run_step(slots_of(mask), j, step as int, t as nat);
                lemma_bit_and(before, before >> step, j);
                assert(bit(before, j) <==> run_at(slots_of(mask), j, step as int, t as nat));
                assert(bit(before, j + step) <==> run_at(
                    slots_of(mask),
                    j + step,
                    step as int,
                    t as nat,
                ));
                if 0 <= j {
                    lemma_bit_shr(before, step as u128, j);
                }
            }
        }
        t += 1;
    }
    m
}

/// `own` and slot `j` besides.
pub open spec fn with_slot(own: spec_fn(int) -> bool, j: int) -> spec_fn(int) -> bool {
    |k: int| own(k) || k == j
}

/// Filling an open end of a run of `len` makes a run of `len + 1` through
/// it: one that starts there, or one that ends there.
pub proof fn lemma_open_end_completes(
    own: spec_fn(int) -> bool,
    free: spec_fn(int) -> bool,
    step: int,
    len: nat,
    j: int,
)
    requires
        open_end(own, free, step, len, j),
    ensures
        run_at(with_slot(own, j), j, step, len + 1) || run_at(
            with_slot(own, j),
            j - len * step,
            step,
            len + 1,
        ),
{
    let filled = with_slot(own, j);
    if run_at(own, j + step, step, len) {
        assert forall|k: int| 0 <= k < len + 1 implies filled(#[trigger] nth_slot(j, step, k)) by {
            if k > 0 {
                assert(k * step == (k - 1) * step + step) by (nonlinear_arith);
                assert(own(nth_slot(j + step, step, k - 1)));
            }
        }
    } else {
        let start = j - len * step;
        assert forall|k: int| 0 <= k < len + 1 implies filled(
            #[trigger] nth_slot(start, step, k),
        ) by {
            if k < len {
                assert(own(nth_slot(start, step, k)));
            }
        }
    }
}

/// A side without a slot has no run.
pub proof fn lemma_no_slots_no_run(start: int, step: int, len: nat)
    requires
        1 <= len,
    ensures
        !run_at(slots_of(0), start, step, len),
{
    if run_at(slots_of(0), start, step, len) {
        assert(slots_of(0)(nth_slot(start, step, 0)));
        lemma_bit_zero(nth_slot(start, step, 0));
    }
}

/// The slots of `cells`, set in neither mask, that are open ends of runs of
/// `len` slots of `player` along `step`.
pub fn end_slots(player: u128, opponent: u128, cells: u128, step: u8, len: u8) -> (ends: u128)
    requires
        1 <= len,
        step * len < 128,
    ensures
        forall|j: int|
            0 <= j < 128 ==> (bit(ends, j) <==> open_end(
                slots_of(player),
                free_in(cells, player | opponent),
                step as int,
                len as nat,
                j,
            )),
{
    proof {
        assert(step <= step * len) by (nonlinear_arith)
            requires
                1 <= len,
        ;
    }
    let m = run_starts(player, step, len);
    let mask = player | opponent;
    let potential1 = m >> step;
    let reach: u32 = step as u32 * len as u32;
    let potential2 = m << reach;
    let ends = (potential1 | potential2) & !mask & cells;
    proof {
        assert forall|j: int| 0 <= j < 128 implies (bit(ends, j) <==> open_end(
            slots_of(player),
            free_in(cells, player | opponent),
            step as int,
            len as nat,
            j,
        )) by {
            lemma_bit_and((potential1 | potential2) & !mask, cells, j);
            lemma_bit_and(potential1 | potential2, !mask, j);
            lemma_bit_not(mask, j);
            lemma_bit_or(potential1, potential2, j);
            lemma_bit_shr(m, step as u128, j);
            lemma_bit_shl(m, reach as u128, j);
            assert(bit(m, j + step) <==> run_at(
                slots_of(player),
                j + step,
                step as int,
                len as nat,
            ));
            assert(bit(m, j - reach) <==> run_at(
                slots_of(player),
                j - len * step,
                step as int,
                len as nat,
            ));
        }
    }
    ends
}

} // verus!
