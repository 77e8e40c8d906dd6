//! Tip ledgers: sequences of `(location, tip)` entries in which no location
//! occurs twice.

use vstd::prelude::*;

verus! {

/// The sum of the tips of all entries.
pub open spec fn tip_total(entries: Seq<(usize, u64)>) -> nat
    decreases entries.len(),
{
    if entries.len() == 0 {
        0
    } else {
        tip_total(entries.drop_last()) + entries.last().1 as nat
    }
}

/// No location occurs in two entries.
pub open spec fn distinct_locations(entries: Seq<(usize, u64)>) -> bool {
    forall|i: int, j: int| 0 <= i < j < entries.len() ==> entries[i].0 != entries[j].0
}

/// Some entry is about `location`.
pub open spec fn has_location(entries: Seq<(usize, u64)>, location: usize) -> bool {
    exists|i: int| 0 <= i < entries.len() && entries[i].0 == location
}

/// The position of an entry about `location`, where there is one.
pub open spec fn slot_of(entries: Seq<(usize, u64)>, location: usize) -> int {
    choose|i: int| 0 <= i < entries.len() && entries[i].0 == location
}

/// The ledger after `tip` has been recorded for `location`: an entry that is
/// already there keeps its place and takes the new tip, a new one goes last.
pub open spec fn with_tip(entries: Seq<(usize, u64)>, location: usize, tip: u64) -> Seq<
    (usize, u64),
> {
    if has_location(entries, location) {
        entries.update(slot_of(entries, location), (location, tip))
    } else {
        entries.push((location, tip))
    }
}

/// The locations of the entries, in their order.
pub open spec fn locations_of(entries: Seq<(usize, u64)>) -> Seq<usize> {
    Seq::new(entries.len(), |i: int| entries[i].0)
}

/// Where no location occurs in two entries, none occurs twice among the
/// locations.
pub proof fn lemma_distinct_locations(entries: Seq<(usize, u64)>)
    requires
        distinct_locations(entries),
    ensures
        locations_of(entries).no_duplicates(),
{
    assert forall|i: int, j: int|
        0 <= i < entries.len() && 0 <= j < entries.len() && i != j implies locations_of(
        entries,
    )[i] != locations_of(entries)[j] by {
        if i < j {
            assert(entries[i].0 != entries[j].0);
        } else {
            assert(entries[j].0 != entries[i].0);
        }
    }
}

/// A total never exceeds what as many tips of the largest size would give.
pub proof fn lemma_tip_total_bound(entries: Seq<(usize, u64)>)
    ensures
        tip_total(entries) <= entries.len() * u64::MAX,
    decreases entries.len(),
{
    if entries.len() > 0 {
        lemma_tip_total_bound(entries.drop_last());
    }
}

/// Appending an entry adds its tip to the total.
pub proof fn lemma_tip_total_push(entries: Seq<(usize, u64)>, entry: (usize, u64))
    ensures
        tip_total(entries.push(entry)) == tip_total(entries) + entry.1,
{
    assert(entries.push(entry).drop_last() =~= entries);
}

/// The total of the first `n` entries grows with `n`.
pub proof fn lemma_tip_total_prefix(entries: Seq<(usize, u64)>, n: int)
    requires
        0 <= n < entries.len(),
    ensures
        tip_total(entries.take(n + 1)) == tip_total(entries.take(n)) + entries[n].1,
{
    assert(entries.take(n + 1).drop_last() =~= entries.take(n));
}

/// Sums the tips of a ledger.
pub fn sum_entries(entries: &Vec<(usize, u64)>) -> (total: u128)
    ensures
        total == tip_total(entries@),
{
    let mut total: u128 = 0;
    let mut i: usize = 0;
    while i < entries.len()
        invariant
            i <= entries.len(),
            total == tip_total(entries@.take(i as int)),
        decreases entries.len() - i,
    {
        proof {
            lemma_tip_total_prefix(entries@, i as int);
            lemma_tip_total_bound(entries@.take(i as int));
        }
        total = total + entries[i].1 as u128;
        i = i + 1;
    }
    assert(entries@.take(i as int) =~= entries@);
    total
}

/// Copies a ledger.
pub fn copy_entries(entries: &Vec<(usize, u64)>) -> (copy: Vec<(usize, u64)>)
    ensures
        copy@ == entries@,
{
    let mut copy: Vec<(usize, u64)> = Vec::new();
    let mut i: usize = 0;
    while i < entries.len()
        invariant
            i <= entries.len(),
            copy@ == entries@.take(i as int),
        decreases entries.len() - i,
    {
        copy.push(entries[i]);
        assert(copy@ =~= entries@.take(i + 1));
        i = i + 1;
    }
    assert(entries@.take(i as int) =~= entries@);
    copy
}

/// Looks for the entry about `location`.
pub fn find_location(entries: &Vec<(usize, u64)>, location: usize) -> (slot: Option<usize>)
    ensures
        slot.is_some() == has_location(entries@, location),
        slot matches Some(i) ==> i < entries.len() && entries[i as int].0 == location && forall|
            j: int,
        | 0 <= j < i ==> entries[j].0 != location,
{
    let mut i: usize = 0;
    while i < entries.len()
        invariant
            i <= entries.len(),
            forall|j: int| 0 <= j < i ==> entries[j].0 != location,
        decreases entries.len() - i,
    {
        if entries[i].0 == location {
            return Some(i);
        }
        i = i + 1;
    }
    None
}

} // verus!
