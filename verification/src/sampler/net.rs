//! Network throughput: which interfaces count and how two readings of the
//! byte counters become a rate.

use vstd::prelude::*;

use crate::sampler::{sat_add, sat_sub};
use crate::text::{chars_of, range_eq, range_starts_with, starts_with};

verus! {

/// Receive and transmit throughput in bytes per second.
#[derive(Debug, Clone)]
pub struct NetSample {
    pub rx_bps: u64,
    pub tx_bps: u64,
}

impl Default for NetSample {
    fn default() -> (r: Self)
        ensures
            r.rx_bps == 0 && r.tx_bps == 0,
    {
        NetSample { rx_bps: 0, tx_bps: 0 }
    }
}

/// Interfaces whose traffic is not physical: loopback, and the bridges,
/// veths, tunnels and VPNs of containers and virtual machines.
pub open spec fn virtual_iface(name: Seq<char>) -> bool {
    ||| name == "lo"@
    ||| starts_with(name, "docker"@)
    ||| starts_with(name, "br-"@)
    ||| starts_with(name, "veth"@)
    ||| starts_with(name, "virbr"@)
    ||| starts_with(name, "tun"@)
    ||| starts_with(name, "tap"@)
    ||| starts_with(name, "podman"@)
    ||| starts_with(name, "wg"@)
    ||| starts_with(name, "cni"@)
}

/// Whether the interface `name` is excluded from the throughput figures.
pub fn is_virtual_iface(name: &str) -> (r: bool)
    ensures
        r == virtual_iface(name@),
{
    let cs = chars_of(name);
    let s = cs.as_slice();
    let n = cs.len();
    proof {
        assert(cs@.subrange(0, cs@.len() as int) =~= name@);
    }
    range_eq(s, 0, n, chars_of("lo").as_slice())
        || range_starts_with(s, 0, n, chars_of("docker").as_slice())
        || range_starts_with(s, 0, n, chars_of("br-").as_slice())
        || range_starts_with(s, 0, n, chars_of("veth").as_slice())
        || range_starts_with(s, 0, n, chars_of("virbr").as_slice())
        || range_starts_with(s, 0, n, chars_of("tun").as_slice())
        || range_starts_with(s, 0, n, chars_of("tap").as_slice())
        || range_starts_with(s, 0, n, chars_of("podman").as_slice())
        || range_starts_with(s, 0, n, chars_of("wg").as_slice())
        || range_starts_with(s, 0, n, chars_of("cni").as_slice())
}

/// Cumulative byte counters of one network interface.
pub struct NetInterface {
    pub name: String,
    pub received: u64,
    pub transmitted: u64,
}

/// Saturating sums of the received and transmitted bytes of the physical
/// interfaces among `ifaces`.
pub open spec fn physical_totals(ifaces: Seq<NetInterface>) -> (u64, u64)
    decreases ifaces.len(),
{
    if ifaces.len() == 0 {
        (0, 0)
    } else {
        let prev = physical_totals(ifaces.drop_last());
        let i = ifaces.last();
        if virtual_iface(i.name@) {
            prev
        } else {
            (sat_add(prev.0, i.received), sat_add(prev.1, i.transmitted))
        }
    }
}

/// One counter of an interface as it counts toward the totals: the
/// received or transmitted bytes, or nothing for a virtual interface.
pub open spec fn counted(i: NetInterface, received: bool) -> int {
    if virtual_iface(i.name@) {
        0
    } else if received {
        i.received as int
    } else {
        i.transmitted as int
    }
}

/// The exact sum of one counter over the physical interfaces among
/// `ifaces`; virtual ones contribute nothing.
pub open spec fn physical_sum(ifaces: Seq<NetInterface>, received: bool) -> int {
    Seq::new(ifaces.len(), |k: int| counted(ifaces[k], received)).fold_left(0int, |a: int, b: int| a + b)
}

/// `x` capped at `u64::MAX`.
pub open spec fn capped(x: int) -> int {
    if x > u64::MAX { u64::MAX as int } else { x }
}

/// Traffic law: the totals are the sums of the received and transmitted
/// counters of every physical interface in the list, wherever it stands,
/// capped at `u64::MAX`; a single physical interface gives its own counters.
pub proof fn lemma_totals_are_capped_sums(ifaces: Seq<NetInterface>)
    ensures
        physical_totals(ifaces).0 == capped(physical_sum(ifaces, true)),
        physical_totals(ifaces).1 == capped(physical_sum(ifaces, false)),
        physical_sum(ifaces, true) >= 0,
        physical_sum(ifaces, false) >= 0,
    decreases ifaces.len(),
{
    if ifaces.len() > 0 {
        let prev = ifaces.drop_last();
        lemma_totals_are_capped_sums(prev);
        assert(Seq::new(ifaces.len(), |k: int| counted(ifaces[k], true)).drop_last() =~= Seq::new(
            prev.len(),
            |k: int| counted(prev[k], true),
        ));
        assert(Seq::new(ifaces.len(), |k: int| counted(ifaces[k], false)).drop_last() =~= Seq::new(
            prev.len(),
            |k: int| counted(prev[k], false),
        ));
        assert(physical_sum(ifaces, true) == physical_sum(prev, true) + counted(ifaces.last(), true));
        assert(physical_sum(ifaces, false) == physical_sum(prev, false) + counted(ifaces.last(), false));
    }
}

/// Total received and transmitted bytes over the physical interfaces.
pub fn physical_traffic(ifaces: &[NetInterface]) -> (r: (u64, u64))
    ensures
        r == physical_totals(ifaces@),
        r.0 == capped(physical_sum(ifaces@, true)),
        r.1 == capped(physical_sum(ifaces@, false)),
{
    proof {
        lemma_totals_are_capped_sums(ifaces@);
    }
    let mut rx: u64 = 0;
    let mut tx: u64 = 0;
    let mut i: usize = 0;
    while i < ifaces.len()
        invariant
            i <= ifaces@.len(),
            (rx, tx) == physical_totals(ifaces@.subrange(0, i as int)),
        decreases ifaces@.len() - i,
    {
        let it = &ifaces[i];
        proof {
            assert(ifaces@.subrange(0, i + 1).drop_last() =~= ifaces@.subrange(0, i as int));
        }
        if !is_virtual_iface(it.name.as_str()) {
            rx = rx.saturating_add(it.received);
            tx = tx.saturating_add(it.transmitted);
        }
        i = i + 1;
    }
    proof {
        assert(ifaces@.subrange(0, ifaces@.len() as int) =~= ifaces@);
    }
    (rx, tx)
}

/// What changed between two readings of the counters: elapsed
/// nanoseconds and received and transmitted bytes (counters that went
/// back count as 0).
pub open spec fn counter_delta(prev: Option<(u64, u64, u64)>, now_ns: u64, rx: u64, tx: u64) -> Option<
    (u64, u64, u64),
> {
    match prev {
        Some((t, r, x)) => Some((sat_sub(now_ns, t), sat_sub(rx, r), sat_sub(tx, x))),
        None => None,
    }
}

/// The previous reading of the network counters.
pub struct NetCounters {
    last: Option<(u64, u64, u64)>,
}

impl NetCounters {
    /// `(time ns, received, transmitted)` of the previous reading.
    pub closed spec fn last_reading(&self) -> Option<(u64, u64, u64)> {
        self.last
    }

    /// No reading taken yet.
    pub fn new() -> (r: Self)
        ensures
            r.last_reading() is None,
    {
        NetCounters { last: None }
    }

    /// Records a reading taken at `now_ns` and returns its difference to
    /// the previous one; `None` for the first reading.
    pub fn observe(&mut self, now_ns: u64, rx: u64, tx: u64) -> (r: Option<(u64, u64, u64)>)
        ensures
            final(self).last_reading() == Some((now_ns, rx, tx)),
            r == counter_delta(old(self).last_reading(), now_ns, rx, tx),
    {
        let prev = self.last;
        self.last = Some((now_ns, rx, tx));
        match prev {
            Some((t, r, x)) => Some((now_ns.saturating_sub(t), rx.saturating_sub(r), tx.saturating_sub(x))),
            None => None,
        }
    }
}

} // verus!
