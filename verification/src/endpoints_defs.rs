//! The fleet's endpoints and the dense global core index.
//!
//! Every virtual core reported by every endpoint gets a unique, contiguous
//! slot in `[0, total)`: the first endpoint owns the first block of slots, the
//! second the next block, and so on — a prefix-sum partition in the input
//! order. An endpoint whose core count does not fit the 32-bit slot counter
//! contributes no slots; a fleet whose total does not fit fails loudly with
//! [`CoreIndexError::CounterOverflow`] rather than wrapping.

use crate::addr_defs::IpAddress;
use crate::sysinfo_defs::SystemInfo;
use std::collections::BTreeMap;
use vstd::prelude::*;

verus! {

/// One reachable machine: its address and its hardware snapshot.
#[derive(Debug, Clone)]
pub struct RemoteEndpoint {
    pub ip: IpAddress,
    pub sys_info: SystemInfo,
}

impl RemoteEndpoint {
    /// Binds an address to a snapshot.
    pub fn new(ip: IpAddress, sys_info: SystemInfo) -> (r: Self)
        ensures
            r.ip == ip,
            r.sys_info == sys_info,
    {
        RemoteEndpoint { ip, sys_info }
    }
}

/// Fleet totals derived from the endpoint list.
#[derive(Debug, Clone, Copy, PartialEq, Eq, Structural)]
pub struct RemoteEndpointSummary {
    pub total_cores: u32,
    pub total_endpoints: u32,
}

impl RemoteEndpointSummary {
    /// An empty summary: no endpoints, no cores.
    pub fn new() -> (r: Self)
        ensures
            r.total_cores == 0,
            r.total_endpoints == 0,
    {
        RemoteEndpointSummary { total_cores: 0, total_endpoints: 0 }
    }
}

/// The one fatal indexing failure: the fleet's total virtual-core count does
/// not fit the 32-bit slot counter, so a dense index cannot be built.
#[derive(Debug, Clone, Copy, PartialEq, Eq, Structural)]
pub enum CoreIndexError {
    CounterOverflow,
}

/// An ordered collection of endpoints; the order is the caller's and fixes
/// the slot partition.
#[derive(Debug, Clone)]
pub struct RemoteEndpoints {
    pub endpoints: Vec<RemoteEndpoint>,
}

/// How many slots one endpoint contributes: its virtual-core count when that
/// fits the 32-bit slot counter, otherwise none (the endpoint is skipped).
pub open spec fn slot_count(ep: RemoteEndpoint) -> int {
    if ep.sys_info.cpu_virtual_cores as int <= u32::MAX as int {
        ep.sys_info.cpu_virtual_cores as int
    } else {
        0
    }
}

/// The fleet's total slot count, in input order.
pub open spec fn total_slots(eps: Seq<RemoteEndpoint>) -> int
    decreases eps.len(),
{
    if eps.len() == 0 {
        0
    } else {
        slot_count(eps[0]) + total_slots(eps.drop_first())
    }
}

/// The endpoint that owns a slot: the one whose prefix-sum segment contains
/// it.
pub open spec fn slot_owner(eps: Seq<RemoteEndpoint>, slot: int) -> IpAddress
    recommends
        0 <= slot < total_slots(eps),
    decreases eps.len(),
{
    if eps.len() == 0 {
        IpAddress { value: 0 }
    } else if slot < slot_count(eps[0]) {
        eps[0].ip
    } else {
        slot_owner(eps.drop_first(), slot - slot_count(eps[0]))
    }
}

/// The dense core index of a fleet: every slot below the total, mapped to its
/// owning endpoint's address.
pub open spec fn core_index_of(eps: Seq<RemoteEndpoint>) -> Map<u32, IpAddress> {
    Map::new(|s: u32| (s as int) < total_slots(eps), |s: u32| slot_owner(eps, s as int))
}

/// The saturating 32-bit value of a count.
pub open spec fn saturate_u32(x: int) -> u32
    recommends
        x >= 0,
{
    if x <= u32::MAX as int {
        x as u32
    } else {
        u32::MAX
    }
}

pub proof fn lemma_total_slots_nonneg(eps: Seq<RemoteEndpoint>)
    ensures
        total_slots(eps) >= 0,
    decreases eps.len(),
{
    if eps.len() > 0 {
        lemma_total_slots_nonneg(eps.drop_first());
    }
}

proof fn lemma_total_slots_push(eps: Seq<RemoteEndpoint>, ep: RemoteEndpoint)
    ensures
        total_slots(eps.push(ep)) == total_slots(eps) + slot_count(ep),
    decreases eps.len(),
{
    assert(eps.push(ep)[0] == if eps.len() == 0 { ep } else { eps[0] });
    if eps.len() == 0 {
        assert(eps.push(ep).drop_first() =~= Seq::<RemoteEndpoint>::empty());
        assert(total_slots(Seq::<RemoteEndpoint>::empty()) == 0);
    } else {
        assert(eps.push(ep).drop_first() =~= eps.drop_first().push(ep));
        lemma_total_slots_push(eps.drop_first(), ep);
    }
}

/// A prefix never has more slots than the whole list.
proof fn lemma_total_slots_take_le(eps: Seq<RemoteEndpoint>, k: int)
    requires
        0 <= k <= eps.len(),
    ensures
        total_slots(eps.take(k)) <= total_slots(eps),
    decreases eps.len() - k,
{
    if k == eps.len() {
        assert(eps.take(k) =~= eps);
    } else {
        assert(eps.take(k + 1) =~= eps.take(k).push(eps[k]));
        lemma_total_slots_push(eps.take(k), eps[k]);
        lemma_total_slots_take_le(eps, k + 1);
    }
}

/// A slot owned inside a prefix keeps its owner when the list grows.
proof fn lemma_slot_owner_extend(eps: Seq<RemoteEndpoint>, ep: RemoteEndpoint, slot: int)
    requires
        0 <= slot < total_slots(eps),
    ensures
        slot_owner(eps.push(ep), slot) == slot_owner(eps, slot),
    decreases eps.len(),
{
    lemma_total_slots_nonneg(eps);
    if eps.len() == 0 {
    } else {
        assert(eps.push(ep)[0] == eps[0]);
        if slot < slot_count(eps[0]) {
        } else {
            assert(eps.push(ep).drop_first() =~= eps.drop_first().push(ep));
            lemma_slot_owner_extend(eps.drop_first(), ep, slot - slot_count(eps[0]));
        }
    }
}

/// A slot in the newly appended endpoint's segment is owned by that endpoint.
proof fn lemma_slot_owner_last(eps: Seq<RemoteEndpoint>, ep: RemoteEndpoint, slot: int)
    requires
        total_slots(eps) <= slot < total_slots(eps) + slot_count(ep),
    ensures
        slot_owner(eps.push(ep), slot) == ep.ip,
    decreases eps.len(),
{
    lemma_total_slots_nonneg(eps);
    if eps.len() == 0 {
        assert(eps.push(ep)[0] == ep);
    } else {
        assert(eps.push(ep)[0] == eps[0]);
        lemma_total_slots_nonneg(eps.drop_first());
        assert(slot >= slot_count(eps[0]));
        assert(eps.push(ep).drop_first() =~= eps.drop_first().push(ep));
        lemma_slot_owner_last(eps.drop_first(), ep, slot - slot_count(eps[0]));
    }
}

/// Indexing is deterministic: any two core indexes built from the same
/// endpoint list — as `get_core_list` promises of its result — are identical,
/// so re-running the indexer on an identical input yields the identical
/// mapping.
pub proof fn lemma_core_index_deterministic(
    eps: Seq<RemoteEndpoint>,
    m1: Map<u32, IpAddress>,
    m2: Map<u32, IpAddress>,
)
    requires
        m1 == core_index_of(eps),
        m2 == core_index_of(eps),
    ensures
        m1 == m2,
{
}

impl RemoteEndpoints {
    /// Wraps an endpoint list, keeping the caller's order.
    pub fn new(ep: Vec<RemoteEndpoint>) -> (r: Self)
        ensures
            r.endpoints == ep,
    {
        RemoteEndpoints { endpoints: ep }
    }

    /// Builds the dense global core index: slot `s` maps to the address of the
    /// endpoint whose prefix-sum segment contains `s`. Re-running this on an
    /// identical list yields the identical mapping, since the result is fixed
    /// by the list alone. Fails with [`CoreIndexError::CounterOverflow`]
    /// exactly when the fleet's total virtual-core count does not fit the
    /// 32-bit slot counter.
    pub fn get_core_list(&self) -> (r: Result<BTreeMap<u32, IpAddress>, CoreIndexError>)
        ensures
            total_slots(self.endpoints@) <= u32::MAX as int ==> (r matches Ok(m) && m@
                == core_index_of(self.endpoints@)),
            total_slots(self.endpoints@) > u32::MAX as int ==> (r matches Err(e) && e
                == CoreIndexError::CounterOverflow),
    {
        let mut core_list: BTreeMap<u32, IpAddress> = BTreeMap::new();
        let mut counter: u32 = 0;

        let n = self.endpoints.len();
        assert(self.endpoints@.take(0int) =~= Seq::<RemoteEndpoint>::empty());
        for i in 0..n
            invariant
                counter as int == total_slots(self.endpoints@.take(i as int)),
                core_list@ == Map::new(
                    |s: u32| (s as int) < counter as int,
                    |s: u32| slot_owner(self.endpoints@.take(i as int), s as int),
                ),
        {
            let ep = &self.endpoints[i];
            let cores: u32 = if ep.sys_info.cpu_virtual_cores <= u32::MAX as usize {
                ep.sys_info.cpu_virtual_cores as u32
            } else {
                0
            };
            assert(cores as int == slot_count(self.endpoints@[i as int]));
            proof {
                assert(self.endpoints@.take(i as int).push(self.endpoints@[i as int])
                    =~= self.endpoints@.take(i as int + 1));
                lemma_total_slots_push(self.endpoints@.take(i as int), self.endpoints@[i as int]);
            }
            if cores > u32::MAX - counter {
                proof {
                    lemma_total_slots_take_le(self.endpoints@, i as int + 1);
                }
                return Err(CoreIndexError::CounterOverflow);
            }
            let ghost prefix = self.endpoints@.take(i as int);
            let ghost grown = self.endpoints@.take(i as int + 1);
            proof {
                lemma_total_slots_nonneg(prefix);
                assert forall|s: u32| (s as int) < counter as int implies slot_owner(
                    grown,
                    s as int,
                ) == slot_owner(prefix, s as int) by {
                    lemma_slot_owner_extend(prefix, self.endpoints@[i as int], s as int);
                }
                assert(Map::new(
                    |s: u32| (s as int) < counter as int,
                    |s: u32| slot_owner(prefix, s as int),
                ) =~= Map::new(
                    |s: u32| (s as int) < counter as int,
                    |s: u32| slot_owner(grown, s as int),
                ));
            }
            let start = counter;
            for j in 0..cores
                invariant
                    counter as int == total_slots(prefix) + j as int,
                    start as int == total_slots(prefix),
                    total_slots(prefix) + cores as int <= u32::MAX as int,
                    cores as int == slot_count(self.endpoints@[i as int]),
                    grown == self.endpoints@.take(i as int + 1),
                    total_slots(grown) == total_slots(prefix) + cores as int,
                    core_list@ == Map::new(
                        |s: u32| (s as int) < counter as int,
                        |s: u32| slot_owner(grown, s as int),
                    ),
            {
                proof {
                    lemma_slot_owner_last(prefix, self.endpoints@[i as int], counter as int);
                }
                core_list.insert(counter, ep.ip);
                proof {
                    assert(core_list@ =~= Map::new(
                        |s: u32| (s as int) < counter as int + 1,
                        |s: u32| slot_owner(grown, s as int),
                    ));
                }
                counter = counter + 1;
            }
        }
        proof {
            assert(self.endpoints@.take(n as int) =~= self.endpoints@);
            assert(core_list@ =~= core_index_of(self.endpoints@));
        }
        Ok(core_list)
    }

    /// Derives the fleet totals: the number of endpoints and the sum of the
    /// per-endpoint slot counts, each saturating at the 32-bit limit instead
    /// of wrapping.
    pub fn thread_summary(&self) -> (s: RemoteEndpointSummary)
        ensures
            s.total_cores == saturate_u32(total_slots(self.endpoints@)),
            s.total_endpoints == saturate_u32(self.endpoints@.len() as int),
    {
        let mut summary: RemoteEndpointSummary = RemoteEndpointSummary::new();
        let mut total: u32 = 0;
        let n = self.endpoints.len();
        assert(self.endpoints@.take(0int) =~= Seq::<RemoteEndpoint>::empty());
        for i in 0..n
            invariant
                total == saturate_u32(total_slots(self.endpoints@.take(i as int))),
        {
            let ep = &self.endpoints[i];
            let cores: u32 = if ep.sys_info.cpu_virtual_cores <= u32::MAX as usize {
                ep.sys_info.cpu_virtual_cores as u32
            } else {
                0
            };
            proof {
                assert(self.endpoints@.take(i as int).push(self.endpoints@[i as int])
                    =~= self.endpoints@.take(i as int + 1));
                lemma_total_slots_push(self.endpoints@.take(i as int), self.endpoints@[i as int]);
                lemma_total_slots_nonneg(self.endpoints@.take(i as int));
            }
            total = if cores > u32::MAX - total {
                u32::MAX
            } else {
                total + cores
            };
        }
        proof {
            assert(self.endpoints@.take(n as int) =~= self.endpoints@);
        }
        summary.total_cores = total;
        summary.total_endpoints = if n > u32::MAX as usize {
            u32::MAX
        } else {
            n as u32
        };
        summary
    }
}

} // verus!
