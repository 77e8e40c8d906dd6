//! The objective: the gap between the best-rewarded rider and the average
//! of the others, should all tips that are still unassigned go to the
//! others.
//!
//! With `k` riders the gap is a fraction over `k - 1`. All gaps here are
//! kept as integers in units of `1 / (k - 1)`: the gap times `k - 1`.

use crate::ledger::{sum_entries, tip_total};
use crate::rider::{Rider, RiderView};
use vstd::prelude::*;

verus! {

/// The riders as the contracts see them.
pub open spec fn roster(riders: Seq<Rider>) -> Seq<RiderView> {
    Seq::new(riders.len(), |i: int| riders[i]@)
}

/// The sum of the tips of all riders.
pub open spec fn roster_total(riders: Seq<RiderView>) -> nat
    decreases riders.len(),
{
    if riders.len() == 0 {
        0
    } else {
        roster_total(riders.drop_last()) + riders.last().sum()
    }
}

/// The largest tip sum of a rider.
pub open spec fn top_sum(riders: Seq<RiderView>) -> nat
    decreases riders.len(),
{
    if riders.len() == 0 {
        0
    } else {
        let earlier = top_sum(riders.drop_last());
        if riders.last().sum() >= earlier {
            riders.last().sum()
        } else {
            earlier
        }
    }
}

/// The rider that holds the largest tip sum; of several, the last.
pub open spec fn top_rider(riders: Seq<RiderView>) -> int
    decreases riders.len(),
{
    if riders.len() <= 1 {
        0
    } else if riders.last().sum() >= top_sum(riders.drop_last()) {
        riders.len() - 1
    } else {
        top_rider(riders.drop_last())
    }
}

/// All tips there are: those still unassigned and those of the riders.
pub open spec fn pool_total(unassigned: Seq<(usize, u64)>, riders: Seq<RiderView>) -> nat {
    tip_total(unassigned) + roster_total(riders)
}

/// The gap of a partial assignment, times `k - 1`: the largest tip sum
/// against the average of all other tips over the other riders.
pub open spec fn scaled_gap(unassigned: Seq<(usize, u64)>, riders: Seq<RiderView>) -> int {
    top_sum(riders) * (riders.len() - 1) - (pool_total(unassigned, riders) - top_sum(riders))
}

/// The pool is small enough for every gap to be computed in `i128`.
pub open spec fn fits(unassigned: Seq<(usize, u64)>, riders: Seq<RiderView>) -> bool {
    riders.len() * pool_total(unassigned, riders) <= i128::MAX
}

/// The largest share of `total` when it is split as evenly as whole tips
/// allow among `k` riders.
pub open spec fn largest_share(total: nat, k: nat) -> nat {
    ((total + k - 1) / k as int) as nat
}

/// The gap of the even split, times `k - 1`. No assignment has a smaller gap.
pub open spec fn relaxed_gap(total: nat, k: nat) -> int {
    largest_share(total, k) * (k - 1) - (total - largest_share(total, k))
}

/// The gap, times `k - 1`, from which a search starts: the whole pool.
pub open spec fn loosest_gap(total: nat, k: nat) -> int {
    total * (k - 1)
}

/// No rider holds more than all riders together.
pub proof fn lemma_top_sum_bounds(riders: Seq<RiderView>)
    ensures
        top_sum(riders) <= roster_total(riders),
        forall|i: int| 0 <= i < riders.len() ==> (#[trigger] riders[i]).sum() <= top_sum(riders),
        riders.len() > 0 ==> 0 <= top_rider(riders) < riders.len() && riders[top_rider(
            riders,
        )].sum() == top_sum(riders),
    decreases riders.len(),
{
    if riders.len() > 0 {
        lemma_top_sum_bounds(riders.drop_last());
        assert forall|i: int| 0 <= i < riders.len() implies (#[trigger] riders[i]).sum()
            <= top_sum(riders) by {
            if i < riders.len() - 1 {
                assert(riders.drop_last()[i] == riders[i]);
            }
        }
        if riders.len() > 1 && riders.last().sum() < top_sum(riders.drop_last()) {
            assert(riders.drop_last()[top_rider(riders.drop_last())] == riders[top_rider(
                riders,
            )]);
        }
    }
}

/// Where the pool fits, every gap is a number that `i128` holds.
pub proof fn lemma_gap_fits(unassigned: Seq<(usize, u64)>, riders: Seq<RiderView>)
    requires
        riders.len() >= 2,
        fits(unassigned, riders),
    ensures
        i128::MIN < scaled_gap(unassigned, riders) <= i128::MAX,
{
    lemma_top_sum_bounds(riders);
    let k = riders.len();
    let top = top_sum(riders);
    let total = pool_total(unassigned, riders);
    assert(top * (k - 1) <= i128::MAX && total <= i128::MAX && top * (k - 1) >= 0)
        by (nonlinear_arith)
        requires
            k >= 2,
            k * total <= i128::MAX,
            0 <= top <= total,
    ;
}

/// Sums the tips of all riders.
pub fn riders_total(riders: &Vec<Rider>) -> (total: u128)
    requires
        roster_total(roster(riders@)) <= u128::MAX,
    ensures
        total == roster_total(roster(riders@)),
{
    let mut total: u128 = 0;
    let mut i: usize = 0;
    while i < riders.len()
        invariant
            i <= riders.len(),
            roster_total(roster(riders@)) <= u128::MAX,
            total == roster_total(roster(riders@).take(i as int)),
            total <= roster_total(roster(riders@)),
        decreases riders.len() - i,
    {
        proof {
            assert(roster(riders@).take(i + 1).drop_last() =~= roster(riders@).take(i as int));
            lemma_roster_total_prefix(roster(riders@), i + 1);
        }
        total = total + riders[i].sum_tips();
        i = i + 1;
    }
    assert(roster(riders@).take(i as int) =~= roster(riders@));
    total
}

/// The total of the first `n` riders is at most the total of all.
pub proof fn lemma_roster_total_prefix(riders: Seq<RiderView>, n: int)
    requires
        0 <= n <= riders.len(),
    ensures
        roster_total(riders.take(n)) <= roster_total(riders),
    decreases riders.len() - n,
{
    if n < riders.len() {
        lemma_roster_total_prefix(riders, n + 1);
        assert(riders.take(n + 1).drop_last() =~= riders.take(n));
    } else {
        assert(riders.take(n) =~= riders);
    }
}

/// Finds the rider that holds the largest tip sum; of several, the last.
pub fn leading_rider(riders: &Vec<Rider>) -> (leader: (usize, u128))
    requires
        riders.len() > 0,
    ensures
        leader.0 == top_rider(roster(riders@)),
        leader.1 == top_sum(roster(riders@)),
        leader.0 < riders.len(),
{
    let mut leader: usize = 0;
    let mut top: u128 = riders[0].sum_tips();
    let mut i: usize = 1;
    proof {
        let first = roster(riders@).take(1);
        assert(first.drop_last() =~= Seq::<RiderView>::empty());
        assert(top_sum(first.drop_last()) == 0);
    }
    while i < riders.len()
        invariant
            1 <= i <= riders.len(),
            leader < i,
            leader == top_rider(roster(riders@).take(i as int)),
            top == top_sum(roster(riders@).take(i as int)),
        decreases riders.len() - i,
    {
        proof {
            assert(roster(riders@).take(i + 1).drop_last() =~= roster(riders@).take(i as int));
        }
        let sum = riders[i].sum_tips();
        if sum >= top {
            leader = i;
            top = sum;
        }
        i = i + 1;
    }
    assert(roster(riders@).take(i as int) =~= roster(riders@));
    (leader, top)
}

/// Computes the gap of a partial assignment, times `k - 1`: the largest tip
/// sum of a rider, against the sum of all other riders and of all unassigned
/// tips, spread over the other `k - 1` riders.
pub fn gap(unassigned: &Vec<(usize, u64)>, riders: &Vec<Rider>) -> (val: i128)
    requires
        riders.len() >= 2,
        fits(unassigned@, roster(riders@)),
    ensures
        val == scaled_gap(unassigned@, roster(riders@)),
{
    let k = riders.len();
    proof {
        let total = pool_total(unassigned@, roster(riders@));
        lemma_top_sum_bounds(roster(riders@));
        assert(total <= i128::MAX && 2 * total <= i128::MAX) by (nonlinear_arith)
            requires
                k >= 2,
                k * total <= i128::MAX,
                total >= 0,
        ;
    }
    let waiting = sum_entries(unassigned);
    let held = riders_total(riders);
    let (_, top) = leading_rider(riders);
    let rest = waiting + held - top;
    proof {
        let total = pool_total(unassigned@, roster(riders@));
        assert(top * (k - 1) <= i128::MAX) by (nonlinear_arith)
            requires
                k >= 2,
                k * total <= i128::MAX,
                0 <= top <= total,
        ;
    }
    let ahead = top as i128 * (k as i128 - 1);
    ahead - rest as i128
}

/// Computes the gap of the even split, times `k - 1`: the bound that no
/// assignment of a pool of `total` to `k` riders can beat.
pub fn relaxed_optimum(total: u128, k: usize) -> (opt: i128)
    requires
        k >= 2,
        k * total <= i128::MAX,
    ensures
        opt == relaxed_gap(total as nat, k as nat),
        opt >= 0,
{
    proof {
        assert(0 <= total <= i128::MAX && total + k - 1 <= u128::MAX) by (nonlinear_arith)
            requires
                k >= 2,
                k * total <= i128::MAX,
                total >= 0,
                k <= usize::MAX,
                usize::MAX <= 0xffff_ffff_ffff_ffff,
                i128::MAX == 0x7fff_ffff_ffff_ffff_ffff_ffff_ffff_ffff,
                u128::MAX == 0xffff_ffff_ffff_ffff_ffff_ffff_ffff_ffff,
        ;
    }
    let share = (total + (k as u128 - 1)) / (k as u128);
    proof {
        lemma_share(total as nat, k as nat);
        assert(share * (k - 1) <= i128::MAX && share * k <= i128::MAX) by (nonlinear_arith)
            requires
                k >= 2,
                k * total <= i128::MAX,
                0 <= share <= total,
        ;
    }
    share as i128 * (k as i128 - 1) - (total as i128 - share as i128)
}

/// The largest share is at least the even share and at most the pool.
pub proof fn lemma_share(total: nat, k: nat)
    requires
        k >= 2,
    ensures
        largest_share(total, k) <= total,
        largest_share(total, k) * k >= total,
        relaxed_gap(total, k) >= 0,
{
    let share = largest_share(total, k);
    assert(share <= total && share * k >= total) by (nonlinear_arith)
        requires
            k >= 2,
            share == (total + k - 1) / k as int,
    ;
    assert(share * (k - 1) - (total - share) == share * k - total) by (nonlinear_arith);
}

/// Computes the gap, times `k - 1`, from which a search starts: the whole
/// pool held by one rider and nothing by the others would do no worse.
pub fn starting_gap(total: u128, k: usize) -> (start: i128)
    requires
        k >= 2,
        k * total <= i128::MAX,
    ensures
        start == loosest_gap(total as nat, k as nat),
{
    proof {
        assert(total * (k - 1) <= i128::MAX && total <= i128::MAX) by (nonlinear_arith)
            requires
                k >= 2,
                k * total <= i128::MAX,
                total >= 0,
        ;
    }
    total as i128 * (k as i128 - 1)
}

} // verus!
