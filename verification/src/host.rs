//! The host as `sysinfo` reports it. Nothing here is proved: each item
//! states what the library takes on trust from that crate.

use crate::metrics::InterfaceCounters;
use crate::ownership::{table_of, ProcessEntry, ProcessView};
use vstd::multiset::Multiset;
use vstd::prelude::*;

verus! {

/// `sysinfo::System`, the crate's handle on the host's processes, memory
/// and processors. The library only carries it from call to call.
#[verifier::external_type_specification]
#[verifier::external_body]
pub struct ExSystem(sysinfo::System);

/// `sysinfo::System::new_all`: a handle with everything loaded once.
/// Nothing is claimed of what it holds.
#[verifier::external_body]
pub(crate) fn system_new_all() -> (system: sysinfo::System) {
    sysinfo::System::new_all()
}

/// `sysinfo::System::refresh_all`: reads the host again. Nothing is claimed
/// of what the handle holds afterwards.
#[verifier::external_body]
pub(crate) fn system_refresh_all(system: &mut sysinfo::System) {
    system.refresh_all()
}

/// The processes that a handle holds, in no order.
pub uninterp spec fn processes_of(system: sysinfo::System) -> Multiset<ProcessView>;

/// `sysinfo::System::processes`: the processes that the handle holds, each
/// copied field by field (`pid`, `parent`, `exe`, `cmd`, `start_time` of
/// `sysinfo::Process`, which give back what the last refresh stored), paths
/// and arguments as the bytes the host gave. The order is that of a hash
/// map, so the contract speaks of the processes as a multiset only.
#[verifier::external_body]
pub(crate) fn process_snapshot(system: &sysinfo::System) -> (table: Vec<ProcessEntry>)
    ensures
        table_of(table@).to_multiset() == processes_of(*system),
{
    system.processes().values().map(|p| ProcessEntry {
        pid: p.pid().as_u32(),
        parent: p.parent().map(|q| q.as_u32()),
        exe: p.exe().map(|e| e.as_os_str().as_encoded_bytes().to_vec()),
        cmd: p.cmd().iter().map(|a| a.as_encoded_bytes().to_vec()).collect(),
        start_time: p.start_time(),
    }).collect()
}

/// `sysinfo::Networks`, the crate's handle on the host's network
/// interfaces. The library only carries it from call to call.
#[verifier::external_type_specification]
#[verifier::external_body]
pub struct ExNetworks(sysinfo::Networks);

/// `sysinfo::NetworkData`, what `sysinfo::Networks` holds of one interface.
/// It is declared because the handle is declared; the library never holds
/// one.
#[verifier::external_type_specification]
#[verifier::external_body]
pub struct ExNetworkData(sysinfo::NetworkData);

/// The byte counters of the interfaces that a handle holds, one pair for
/// each interface, in no order.
pub uninterp spec fn interfaces_of(networks: sysinfo::Networks) -> Multiset<InterfaceCounters>;

/// `sysinfo::Networks::list`: the interfaces that the handle holds, each as
/// its two cumulative byte counters (`total_received`, `total_transmitted`
/// of `sysinfo::NetworkData`, which give back what the last refresh
/// stored). The order is that of a hash map, so the contract speaks of the
/// counters as a multiset only.
#[verifier::external_body]
pub(crate) fn interface_counters(networks: &sysinfo::Networks) -> (counters: Vec<
    InterfaceCounters,
>)
    ensures
        counters@.to_multiset() == interfaces_of(*networks),
{
    networks.list().values().map(|d| InterfaceCounters {
        received: d.total_received(),
        transmitted: d.total_transmitted(),
    }).collect()
}

} // verus!
