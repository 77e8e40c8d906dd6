//! The state of a search node: the locations still unassigned and the
//! riders with what is committed to them. Together they always hold the
//! whole pool, each location once.

use crate::ledger::{distinct_locations, has_location, lemma_tip_total_push, tip_total};
use crate::objective::{fits, pool_total, roster_total};
use crate::rider::RiderView;
use vstd::prelude::*;

verus! {

/// All entries of a state: the unassigned ones and those of every rider.
pub open spec fn pool(unassigned: Seq<(usize, u64)>, riders: Seq<RiderView>) -> Set<
    (usize, u64),
> {
    Set::new(
        |entry: (usize, u64)|
            unassigned.contains(entry) || exists|i: int|
                0 <= i < riders.len() && (#[trigger] riders[i]).orders.contains(entry),
    )
}

/// No location occurs twice in a state: not in the unassigned entries, not
/// with one rider, not with a rider and unassigned, not with two riders.
pub open spec fn disjoint(unassigned: Seq<(usize, u64)>, riders: Seq<RiderView>) -> bool {
    &&& distinct_locations(unassigned)
    &&& forall|i: int| 0 <= i < riders.len() ==> distinct_locations((#[trigger] riders[i]).orders)
    &&& forall|i: int, l: usize|
        0 <= i < riders.len() && has_location(unassigned, l) ==> !#[trigger] has_location(
            riders[i].orders,
            l,
        )
    &&& forall|i: int, j: int, l: usize|
        0 <= i < riders.len() && 0 <= j < riders.len() && i != j && #[trigger] has_location(
            riders[i].orders,
            l,
        ) ==> !#[trigger] has_location(riders[j].orders, l)
}

/// Every location of the entries is a node of the graph other than the
/// depot, which is the last of `nodes` nodes.
pub open spec fn are_locations(nodes: nat, entries: Seq<(usize, u64)>) -> bool {
    forall|i: int| 0 <= i < entries.len() ==> (#[trigger] entries[i]).0 + 1 < nodes
}

/// A state that a search can start from or pass through: at least two
/// riders, every location a node of the graph and held once, and a pool
/// small enough for the gaps to be computed.
pub open spec fn is_state(nodes: nat, unassigned: Seq<(usize, u64)>, riders: Seq<RiderView>) -> bool {
    &&& riders.len() >= 2
    &&& disjoint(unassigned, riders)
    &&& are_locations(nodes, unassigned)
    &&& forall|i: int| 0 <= i < riders.len() ==> are_locations(nodes, (#[trigger] riders[i]).orders)
    &&& fits(unassigned, riders)
}

/// The unassigned entries after the one at `slot` has been committed.
pub open spec fn left_after(unassigned: Seq<(usize, u64)>, slot: int) -> Seq<(usize, u64)> {
    unassigned.remove(slot)
}

/// The riders after the unassigned entry at `slot` has been committed to
/// rider `i`.
pub open spec fn riders_after(
    unassigned: Seq<(usize, u64)>,
    riders: Seq<RiderView>,
    i: int,
    slot: int,
) -> Seq<RiderView> {
    riders.update(i, riders[i].tipped(unassigned[slot].0, unassigned[slot].1))
}

/// Removing an entry takes its tip from the total.
pub proof fn lemma_tip_total_remove(entries: Seq<(usize, u64)>, slot: int)
    requires
        0 <= slot < entries.len(),
    ensures
        tip_total(entries.remove(slot)) == tip_total(entries) - entries[slot].1,
    decreases entries.len(),
{
    if slot == entries.len() - 1 {
        assert(entries.remove(slot) =~= entries.drop_last());
    } else {
        lemma_tip_total_remove(entries.drop_last(), slot);
        assert(entries.remove(slot).drop_last() =~= entries.drop_last().remove(slot));
        assert(entries.remove(slot).last() == entries.last());
    }
}

/// Replacing a rider changes the total by the difference of the two sums.
pub proof fn lemma_roster_total_update(riders: Seq<RiderView>, i: int, rider: RiderView)
    requires
        0 <= i < riders.len(),
    ensures
        roster_total(riders.update(i, rider)) == roster_total(riders) - riders[i].sum()
            + rider.sum(),
    decreases riders.len(),
{
    if i == riders.len() - 1 {
        assert(riders.update(i, rider).drop_last() =~= riders.drop_last());
    } else {
        lemma_roster_total_update(riders.drop_last(), i, rider);
        assert(riders.update(i, rider).drop_last() =~= riders.drop_last().update(i, rider));
    }
}

/// What a ledger holds once one entry is removed: the locations it held,
/// but for that of the entry.
pub proof fn lemma_has_location_remove(entries: Seq<(usize, u64)>, slot: int, l: usize)
    requires
        0 <= slot < entries.len(),
        distinct_locations(entries),
    ensures
        has_location(entries.remove(slot), l) <==> has_location(entries, l) && l
            != entries[slot].0,
        distinct_locations(entries.remove(slot)),
{
    let rest = entries.remove(slot);
    if has_location(rest, l) {
        let a = choose|a: int| 0 <= a < rest.len() && rest[a].0 == l;
        if a < slot {
            assert(entries[a].0 == l);
        } else {
            assert(entries[a + 1].0 == l);
        }
    }
    if has_location(entries, l) && l != entries[slot].0 {
        let a = choose|a: int| 0 <= a < entries.len() && entries[a].0 == l;
        if a < slot {
            assert(rest[a].0 == l);
        } else {
            assert(rest[a - 1].0 == l);
        }
    }
}

/// What a ledger holds once a new location is recorded: the locations it
/// held, and the new one.
pub proof fn lemma_has_location_push(entries: Seq<(usize, u64)>, entry: (usize, u64), l: usize)
    ensures
        has_location(entries.push(entry), l) <==> has_location(entries, l) || l == entry.0,
{
    let more = entries.push(entry);
    if has_location(more, l) {
        let a = choose|a: int| 0 <= a < more.len() && more[a].0 == l;
        if a < entries.len() {
            assert(entries[a].0 == l);
        }
    }
    if has_location(entries, l) {
        let a = choose|a: int| 0 <= a < entries.len() && entries[a].0 == l;
        assert(more[a].0 == l);
    }
    if l == entry.0 {
        assert(more[entries.len() as int].0 == l);
    }
}

/// Committing an unassigned location to a rider leads from a state to a
/// state with the same pool: the location leaves the unassigned entries and
/// goes last in the rider's ledger, and nothing else changes. So at every
/// node of a search the unassigned locations and the riders' locations make
/// up the pool that the search started with, each location once.
pub proof fn lemma_commit_keeps_partition(
    nodes: nat,
    unassigned: Seq<(usize, u64)>,
    riders: Seq<RiderView>,
    i: int,
    slot: int,
)
    requires
        is_state(nodes, unassigned, riders),
        0 <= i < riders.len(),
        0 <= slot < unassigned.len(),
    ensures
        is_state(nodes, left_after(unassigned, slot), riders_after(unassigned, riders, i, slot)),
        pool(left_after(unassigned, slot), riders_after(unassigned, riders, i, slot)) == pool(
            unassigned,
            riders,
        ),
        pool_total(left_after(unassigned, slot), riders_after(unassigned, riders, i, slot))
            == pool_total(unassigned, riders),
        riders_after(unassigned, riders, i, slot)[i].orders == riders[i].orders.push(
            unassigned[slot],
        ),
        riders_after(unassigned, riders, i, slot)[i].sum() == riders[i].sum()
            + unassigned[slot].1,
{
    let entry = unassigned[slot];
    let left = left_after(unassigned, slot);
    let after = riders_after(unassigned, riders, i, slot);
    assert(has_location(unassigned, entry.0));
    assert(!has_location(riders[i].orders, entry.0));
    assert(after[i].orders == riders[i].orders.push(entry));
    lemma_tip_total_push(riders[i].orders, entry);
    lemma_tip_total_remove(unassigned, slot);
    lemma_roster_total_update(riders, i, after[i]);

    // Each location is still held once.
    assert forall|l: usize|
        (has_location(left, l) <==> has_location(unassigned, l) && l != entry.0) && (has_location(
            after[i].orders,
            l,
        ) <==> has_location(riders[i].orders, l) || l == entry.0) by {
        lemma_has_location_remove(unassigned, slot, l);
        lemma_has_location_push(riders[i].orders, entry, l);
    }
    lemma_has_location_remove(unassigned, slot, entry.0);
    assert(distinct_locations(after[i].orders)) by {
        let more = after[i].orders;
        assert forall|a: int, b: int| 0 <= a < b < more.len() implies more[a].0 != more[b].0 by {
            if b == more.len() - 1 {
                if more[a].0 == entry.0 {
                    assert(riders[i].orders[a].0 == entry.0);
                }
            }
        }
    }
    assert forall|j: int| 0 <= j < after.len() implies distinct_locations(
        (#[trigger] after[j]).orders,
    ) by {
        if j != i {
            assert(after[j] == riders[j]);
        }
    }
    assert forall|j: int, l: usize|
        0 <= j < after.len() && has_location(left, l) implies !#[trigger] has_location(
            after[j].orders,
            l,
        ) by {
        assert(!has_location(riders[j].orders, l));
    }
    assert forall|j: int, h: int, l: usize|
        0 <= j < after.len() && 0 <= h < after.len() && j != h && #[trigger] has_location(
            after[j].orders,
            l,
        ) implies !#[trigger] has_location(after[h].orders, l) by {
        if j == i {
            if l == entry.0 {
                assert(!has_location(riders[h].orders, l));
            } else {
                assert(has_location(riders[i].orders, l));
                assert(!has_location(riders[h].orders, l));
            }
        } else if h == i {
            assert(has_location(riders[j].orders, l));
            assert(!has_location(riders[i].orders, l));
            assert(l != entry.0);
        } else {
            assert(has_location(riders[j].orders, l));
        }
    }
    // Each location is still a node of the graph.
    assert forall|j: int| 0 <= j < after.len() implies are_locations(
        nodes,
        (#[trigger] after[j]).orders,
    ) by {
        if j != i {
            assert(after[j] == riders[j]);
        } else {
            assert(are_locations(nodes, riders[i].orders));
        }
    }
    // The pool is the same set of entries.
    assert forall|e: (usize, u64)| pool(left, after).contains(e) <==> pool(
        unassigned,
        riders,
    ).contains(e) by {
        if pool(left, after).contains(e) {
            if left.contains(e) {
                let a = choose|a: int| 0 <= a < left.len() && left[a] == e;
                if a < slot {
                    assert(unassigned[a] == e);
                } else {
                    assert(unassigned[a + 1] == e);
                }
            } else {
                let j = choose|j: int|
                    0 <= j < after.len() && (#[trigger] after[j]).orders.contains(e);
                if j != i {
                    assert(riders[j].orders.contains(e));
                } else {
                    let a = choose|a: int| 0 <= a < after[i].orders.len() && after[i].orders[a] == e;
                    if a < riders[i].orders.len() {
                        assert(riders[i].orders[a] == e);
                        assert(riders[i].orders.contains(e));
                    } else {
                        assert(unassigned[slot] == e);
                    }
                }
            }
        }
        if pool(unassigned, riders).contains(e) {
            if unassigned.contains(e) {
                let a = choose|a: int| 0 <= a < unassigned.len() && unassigned[a] == e;
                if a < slot {
                    assert(left[a] == e);
                } else if a == slot {
                    assert(after[i].orders[riders[i].orders.len() as int] == e);
                    assert(after[i].orders.contains(e));
                } else {
                    assert(left[a - 1] == e);
                }
            } else {
                let j = choose|j: int|
                    0 <= j < riders.len() && (#[trigger] riders[j]).orders.contains(e);
                if j != i {
                    assert(after[j].orders.contains(e));
                } else {
                    let a = choose|a: int| 0 <= a < riders[i].orders.len() && riders[i].orders[a] == e;
                    assert(after[i].orders[a] == e);
                    assert(after[i].orders.contains(e));
                }
            }
        }
    }
    assert(pool(left, after) =~= pool(unassigned, riders));
}

} // verus!
