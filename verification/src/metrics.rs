//! The metric source: what one reading of the host's network interfaces
//! adds up to.

use crate::host::{interface_counters, interfaces_of};
use crate::stats::{lemma_readings_of_permutation, lemma_total_ignores_order, total};
use vstd::prelude::*;

verus! {

/// The cumulative byte counters of one network interface.
#[derive(Clone, Copy, Debug, PartialEq, Eq, Structural)]
pub struct InterfaceCounters {
    pub received: u64,
    pub transmitted: u64,
}

/// The received-bytes counters of the interfaces, in their order.
pub open spec fn received_of(counters: Seq<InterfaceCounters>) -> Seq<nat> {
    Seq::new(counters.len(), |i: int| counters[i].received as nat)
}

/// The sent-bytes counters of the interfaces, in their order.
pub open spec fn transmitted_of(counters: Seq<InterfaceCounters>) -> Seq<nat> {
    Seq::new(counters.len(), |i: int| counters[i].transmitted as nat)
}

/// `n` as a 64-bit counter, which stops at its greatest value.
pub open spec fn capped(n: nat) -> u64 {
    if n <= u64::MAX {
        n as u64
    } else {
        u64::MAX
    }
}

/// The bytes received and sent on all the interfaces together. A sum that
/// 64 bits cannot hold is given as the greatest value they can.
pub fn sum_counters(counters: &Vec<InterfaceCounters>) -> (totals: (u64, u64))
    ensures
        totals.0 == capped(total(received_of(counters@))),
        totals.1 == capped(total(transmitted_of(counters@))),
{
    let mut rx: u64 = 0;
    let mut tx: u64 = 0;
    let mut i: usize = 0;
    while i < counters.len()
        invariant
            i <= counters.len(),
            rx == capped(total(received_of(counters@.take(i as int)))),
            tx == capped(total(transmitted_of(counters@.take(i as int)))),
        decreases counters.len() - i,
    {
        proof {
            let before = counters@.take(i as int);
            let after = counters@.take(i + 1);
            assert(received_of(after).drop_last() =~= received_of(before));
            assert(transmitted_of(after).drop_last() =~= transmitted_of(before));
        }
        rx = rx.saturating_add(counters[i].received);
        tx = tx.saturating_add(counters[i].transmitted);
        i += 1;
    }
    assert(counters@.take(i as int) =~= counters@);
    (rx, tx)
}

/// Whether `listing` names the interfaces that `networks` holds, each once,
/// in some order.
pub open spec fn lists_interfaces(listing: Seq<InterfaceCounters>, networks: sysinfo::Networks) -> bool {
    listing.to_multiset() == interfaces_of(networks)
}

/// The bytes received and sent on all the interfaces that `networks` holds:
/// the sums of `sum_counters` over their counters, in whatever order they
/// are listed.
pub fn network_totals(networks: &sysinfo::Networks) -> (totals: (u64, u64))
    ensures
        exists|listing: Seq<InterfaceCounters>| lists_interfaces(listing, *networks),
        forall|listing: Seq<InterfaceCounters>| #[trigger]
            lists_interfaces(listing, *networks) ==> totals.0 == capped(
                total(received_of(listing)),
            ) && totals.1 == capped(total(transmitted_of(listing))),
{
    let counters = interface_counters(networks);
    let totals = sum_counters(&counters);
    assert(lists_interfaces(counters@, *networks));
    assert forall|listing: Seq<InterfaceCounters>| #[trigger]
        lists_interfaces(listing, *networks) implies totals.0 == capped(
        total(received_of(listing)),
    ) && totals.1 == capped(total(transmitted_of(listing))) by {
        let received = |c: InterfaceCounters| c.received as nat;
        let transmitted = |c: InterfaceCounters| c.transmitted as nat;
        assert(received_of(listing) =~= listing.map_values(received));
        assert(received_of(counters@) =~= counters@.map_values(received));
        assert(transmitted_of(listing) =~= listing.map_values(transmitted));
        assert(transmitted_of(counters@) =~= counters@.map_values(transmitted));
        lemma_readings_of_permutation(listing, counters@, received);
        lemma_readings_of_permutation(listing, counters@, transmitted);
        lemma_total_ignores_order(received_of(listing), received_of(counters@));
        lemma_total_ignores_order(transmitted_of(listing), transmitted_of(counters@));
    }
    totals
}

} // verus!
