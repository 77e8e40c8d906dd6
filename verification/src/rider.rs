//! A rider and the tips of the locations committed to it.

use crate::ledger::{
    copy_entries, distinct_locations, find_location, lemma_distinct_locations, locations_of,
    slot_of, sum_entries, tip_total, with_tip,
};
use std::cmp::Ordering;
use vstd::prelude::*;

verus! {

/// A rider: its id, the ledger of the locations it serves, and its tour once
/// one has been computed (empty until then).
#[derive(Debug)]
pub struct Rider {
    id: usize,
    orders: Vec<(usize, u64)>,
    route: Vec<usize>,
}

/// What a rider is to the contracts.
pub struct RiderView {
    pub id: usize,
    pub orders: Seq<(usize, u64)>,
    pub route: Seq<usize>,
}

impl RiderView {
    /// The sum of the rider's tips.
    pub open spec fn sum(self) -> nat {
        tip_total(self.orders)
    }

    /// The rider after `tip` has been recorded for `location`.
    pub open spec fn tipped(self, location: usize, tip: u64) -> RiderView {
        RiderView { orders: with_tip(self.orders, location, tip), ..self }
    }

    /// The rider with the tour `route`.
    pub open spec fn routed(self, route: Seq<usize>) -> RiderView {
        RiderView { route, ..self }
    }
}

impl View for Rider {
    type V = RiderView;

    closed spec fn view(&self) -> RiderView {
        RiderView { id: self.id, orders: self.orders@, route: self.route@ }
    }
}

impl Rider {
    #[verifier::type_invariant]
    spec fn locations_are_distinct(&self) -> bool {
        distinct_locations(self.orders@)
    }

    /// A rider without locations and without a tour.
    pub fn new(id: usize) -> (rider: Rider)
        ensures
            rider@ == (RiderView { id, orders: Seq::empty(), route: Seq::empty() }),
    {
        Rider { id, orders: Vec::new(), route: Vec::new() }
    }

    /// Records `tip` for `location`. A location that the rider already has
    /// keeps its place and takes the new tip.
    pub fn add_tip(&mut self, location: usize, tip: u64)
        ensures
            final(self)@ == old(self)@.tipped(location, tip),
            distinct_locations(final(self)@.orders),
    {
        proof {
            use_type_invariant(&*self);
        }
        let mut orders: Vec<(usize, u64)> = Vec::new();
        core::mem::swap(&mut self.orders, &mut orders);
        match find_location(&orders, location) {
            Some(slot) => {
                assert(slot_of(orders@, location) == slot as int);
                orders.set(slot, (location, tip));
            },
            None => {
                orders.push((location, tip));
            },
        }
        self.orders = orders;
    }

    /// The sum of the tips.
    pub fn sum_tips(&self) -> (total: u128)
        ensures
            total == self@.sum(),
    {
        sum_entries(&self.orders)
    }

    /// The rider's id.
    pub fn id(&self) -> (id: usize)
        ensures
            id == self@.id,
    {
        self.id
    }

    /// The ledger: one `(location, tip)` entry for each location, in the
    /// order in which the locations came.
    pub fn orders(&self) -> (orders: &Vec<(usize, u64)>)
        ensures
            orders@ == self@.orders,
            distinct_locations(orders@),
    {
        proof {
            use_type_invariant(self);
        }
        &self.orders
    }

    /// The tour, empty where none has been computed.
    pub fn route(&self) -> (route: &Vec<usize>)
        ensures
            route@ == self@.route,
    {
        &self.route
    }

    /// The locations of the ledger, in its order.
    pub fn locations(&self) -> (locations: Vec<usize>)
        ensures
            locations@ == locations_of(self@.orders),
            locations@.no_duplicates(),
    {
        proof {
            use_type_invariant(self);
            lemma_distinct_locations(self.orders@);
        }
        let mut locations: Vec<usize> = Vec::new();
        let mut i: usize = 0;
        while i < self.orders.len()
            invariant
                i <= self.orders.len(),
                locations@ == locations_of(self.orders@.take(i as int)),
            decreases self.orders.len() - i,
        {
            locations.push(self.orders[i].0);
            assert(locations@ =~= locations_of(self.orders@.take(i + 1)));
            i = i + 1;
        }
        assert(self.orders@.take(i as int) =~= self.orders@);
        locations
    }

    /// Replaces the tour.
    pub fn set_route(&mut self, route: Vec<usize>)
        ensures
            final(self)@ == old(self)@.routed(route@),
    {
        proof {
            use_type_invariant(&*self);
        }
        self.route = route;
    }
}

impl Clone for Rider {
    /// A copy with the same id, ledger and tour.
    fn clone(&self) -> (copy: Rider)
        ensures
            copy@ == self@,
    {
        proof {
            use_type_invariant(self);
        }
        let orders = copy_entries(&self.orders);
        let route = self.route.clone();
        assert(route@ =~= self.route@);
        Rider { id: self.id, orders, route }
    }
}

/// Two riders are equal where their tip sums are.
impl PartialEq for Rider {
    fn eq(&self, other: &Rider) -> (equal: bool) {
        self.sum_tips() == other.sum_tips()
    }
}

impl vstd::std_specs::cmp::PartialEqSpecImpl for Rider {
    open spec fn obeys_eq_spec() -> bool {
        true
    }

    open spec fn eq_spec(&self, other: &Rider) -> bool {
        self@.sum() == other@.sum()
    }
}

impl Eq for Rider {

}

/// Riders are ordered by their tip sums.
impl PartialOrd for Rider {
    fn partial_cmp(&self, other: &Rider) -> (order: Option<Ordering>) {
        let mine = self.sum_tips();
        let theirs = other.sum_tips();
        if mine < theirs {
            Some(Ordering::Less)
        } else if mine == theirs {
            Some(Ordering::Equal)
        } else {
            Some(Ordering::Greater)
        }
    }
}

impl vstd::std_specs::cmp::PartialOrdSpecImpl for Rider {
    open spec fn obeys_partial_cmp_spec() -> bool {
        true
    }

    open spec fn partial_cmp_spec(&self, other: &Rider) -> Option<Ordering> {
        if self@.sum() < other@.sum() {
            Some(Ordering::Less)
        } else if self@.sum() == other@.sum() {
            Some(Ordering::Equal)
        } else {
            Some(Ordering::Greater)
        }
    }
}

} // verus!
