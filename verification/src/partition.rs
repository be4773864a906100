//! Partition detection: connected-components analysis over a topology
//! snapshot.
//!
//! Detection is pull-based: the detector works on the topology captured
//! at construction (or handed to `refresh`), and mutating that topology
//! elsewhere does not refresh earlier results.

use vstd::prelude::*;

use crate::network::{copy_ids, vec_contains, AgentId, NetworkTopology};

verus! {

/// Whether `a` is a member of one of the partitions.
pub open spec fn in_some_partition(parts: Seq<Vec<AgentId>>, a: AgentId) -> bool {
    exists|pi: int| 0 <= pi < parts.len() && (#[trigger] parts[pi])@.contains(a)
}

/// Whether every two distinct positions over all partitions hold
/// distinct agents: together with coverage this says that the
/// partitions hold every known agent exactly once.
pub open spec fn partitions_exact(parts: Seq<Vec<AgentId>>) -> bool {
    forall|p1: int, k1: int, p2: int, k2: int|
        #![trigger parts[p1]@[k1], parts[p2]@[k2]]
        0 <= p1 < parts.len() && 0 <= k1 < parts[p1]@.len() && 0 <= p2 < parts.len() && 0 <= k2
            < parts[p2]@.len() && (p1 != p2 || k1 != k2) ==> parts[p1]@[k1] != parts[p2]@[k2]
}

/// Whether every usable link out of a partition member into a
/// registered agent lands in that member's partition or an earlier
/// one: the partitions are maximal.  Together with coverage this makes
/// each partition a full component; with symmetric links, agents are in
/// the same partition exactly when they are connected.
pub open spec fn partitions_closed(t: NetworkTopology, parts: Seq<Vec<AgentId>>) -> bool {
    forall|pi: int, k: int, d: AgentId|
        0 <= pi < parts.len() && 0 <= k < parts[pi]@.len() && #[trigger] t.spec_usable(
            parts[pi]@[k],
            d,
        ) && t.spec_has_agent(d) ==> exists|pj: int|
            0 <= pj <= pi && (#[trigger] parts[pj])@.contains(d)
}

/// Connected-components detector over a topology snapshot.
///
/// The fields are public so that specifications can speak of them;
/// callers are expected to go through the methods.
pub struct PartitionDetector {
    pub topology: NetworkTopology,
    pub partitions: Vec<Vec<AgentId>>,
    pub last_detection_ms: i64,
}

impl PartitionDetector {
    /// A detector over the given snapshot, with no detection run yet.
    pub fn new(topology: NetworkTopology) -> (r: Self)
        ensures
            r.topology == topology,
            r.partitions@.len() == 0,
            r.last_detection_ms == 0,
    {
        PartitionDetector { topology, partitions: Vec::new(), last_detection_ms: 0 }
    }

    /// Group every known agent into partitions by repeated breadth-first
    /// search over usable links.  Afterwards the partitions are
    /// non-empty, cover every registered agent exactly once, each
    /// member is reachable from its partition's first member, and the
    /// partitions are maximal: a usable link out of a member never
    /// leads to a later partition.
    pub fn detect_partitions(&mut self) -> (r: &Vec<Vec<AgentId>>)
        requires
            old(self).topology.wf(),
        ensures
            final(self).topology == old(self).topology,
            final(self).last_detection_ms == old(self).topology.current_time_ms,
            forall|a: AgentId| #[trigger]
                in_some_partition(final(self).partitions@, a) == old(self).topology.spec_has_agent(a),
            partitions_exact(final(self).partitions@),
            forall|pi: int|
                0 <= pi < final(self).partitions@.len() ==> (#[trigger] final(self).partitions@[pi])@.len() >= 1,
            forall|pi: int, k: int|
                #![trigger final(self).partitions@[pi]@[k]]
                0 <= pi < final(self).partitions@.len() && 0 <= k
                    < final(self).partitions@[pi]@.len() ==> old(self).topology.spec_connected(
                    final(self).partitions@[pi]@[0],
                    final(self).partitions@[pi]@[k],
                ),
            partitions_closed(old(self).topology, final(self).partitions@),
            r@ == final(self).partitions@,
    {
        self.partitions = Vec::new();
        let agents = self.topology.get_agents();
        let mut assigned: Vec<AgentId> = Vec::new();
        let mut ai: usize = 0;
        while ai < agents.len()
            invariant
                self.topology == old(self).topology,
                self.topology.wf(),
                agents@ == self.topology.agent_ids(),
                ai <= agents@.len(),
                forall|k1: int, k2: int|
                    0 <= k1 < k2 < assigned@.len() ==> assigned@[k1] != assigned@[k2],
                forall|k: int|
                    0 <= k < assigned@.len() ==> self.topology.spec_has_agent(
                        #[trigger] assigned@[k],
                    ),
                forall|x: AgentId| #[trigger]
                    assigned@.contains(x) == in_some_partition(self.partitions@, x),
                forall|m: int| 0 <= m < ai ==> assigned@.contains(#[trigger] agents@[m]),
                partitions_exact(self.partitions@),
                forall|pi: int|
                    0 <= pi < self.partitions@.len() ==> (#[trigger] self.partitions@[pi])@.len()
                        >= 1,
                forall|pi: int, k: int|
                    #![trigger self.partitions@[pi]@[k]]
                    0 <= pi < self.partitions@.len() && 0 <= k < self.partitions@[pi]@.len()
                        ==> self.topology.spec_connected(
                        self.partitions@[pi]@[0],
                        self.partitions@[pi]@[k],
                    ),
                partitions_closed(self.topology, self.partitions@),
            decreases agents@.len() - ai,
        {
            let a = agents[ai];
            if !vec_contains(&assigned, a) {
                let ghost a_before: Seq<AgentId> = assigned@;
                let mut part: Vec<AgentId> = Vec::new();
                let mut queue: Vec<AgentId> = Vec::new();
                part.push(a);
                queue.push(a);
                assigned.push(a);
                proof {
                    self.topology.lemma_connected_self(a);
                    self.topology.lemma_agent_ids_index();
                    assert(assigned@[assigned@.len() - 1] == a);
                    assert(part@[0] == a);
                    assert(part@.contains(a));
                    assert forall|x: AgentId|
                        a_before.contains(x) implies assigned@.contains(x) by {
                        let k = choose|k: int| 0 <= k < a_before.len() && a_before[k] == x;
                        assert(assigned@[k] == x);
                    }
                    assert forall|x: AgentId|
                        assigned@.contains(x) implies a_before.contains(x) || x == a by {
                        let k = choose|k: int| 0 <= k < assigned@.len() && assigned@[k] == x;
                        if k < a_before.len() {
                            assert(a_before[k] == x);
                        }
                    }
                    assert forall|x: AgentId|
                        part@.contains(x) implies x == a by {
                        let k = choose|k: int| 0 <= k < part@.len() && part@[k] == x;
                    }
                    assert forall|x: AgentId|
                        #[trigger] assigned@.contains(x) == (in_some_partition(
                        self.partitions@,
                        x,
                    ) || part@.contains(x)) by {
                        assert(a_before.contains(x) == in_some_partition(self.partitions@, x));
                        if assigned@.contains(x) {
                            assert(a_before.contains(x) || x == a);
                        }
                        if in_some_partition(self.partitions@, x) {
                            assert(a_before.contains(x));
                            assert(assigned@.contains(x));
                        }
                        if part@.contains(x) {
                            assert(x == a);
                            assert(assigned@.contains(x));
                        }
                    }
                }
                let ghost base: int = assigned@.len() as int;
                let ghost mut used: Set<int> = Set::empty();
                let ghost links_len: int = self.topology.links@.len() as int;
                while queue.len() > 0
                    invariant
                        self.topology == old(self).topology,
                        self.topology.wf(),
                        agents@ == self.topology.agent_ids(),
                        ai < agents@.len(),
                        a == agents@[ai as int],
                        links_len == self.topology.links@.len(),
                        forall|k1: int, k2: int|
                            0 <= k1 < k2 < assigned@.len() ==> assigned@[k1] != assigned@[k2],
                        forall|k: int|
                            0 <= k < assigned@.len() ==> self.topology.spec_has_agent(
                                #[trigger] assigned@[k],
                            ),
                        forall|x: AgentId| #[trigger]
                            assigned@.contains(x) == (in_some_partition(self.partitions@, x)
                                || part@.contains(x)),
                        forall|m: int|
                            0 <= m < ai ==> assigned@.contains(#[trigger] agents@[m]),
                        partitions_exact(self.partitions@),
                        forall|pi: int|
                            0 <= pi < self.partitions@.len() ==> (#[trigger] self.partitions@[pi])@.len()
                                >= 1,
                        forall|pi: int, k: int|
                            #![trigger self.partitions@[pi]@[k]]
                            0 <= pi < self.partitions@.len() && 0 <= k
                                < self.partitions@[pi]@.len()
                                ==> self.topology.spec_connected(
                                self.partitions@[pi]@[0],
                                self.partitions@[pi]@[k],
                            ),
                        part@.len() >= 1,
                        part@[0] == a,
                        forall|k1: int, k2: int|
                            0 <= k1 < k2 < part@.len() ==> part@[k1] != part@[k2],
                        forall|k: int|
                            0 <= k < part@.len() ==> assigned@.contains(#[trigger] part@[k]),
                        forall|k: int|
                            0 <= k < part@.len() ==> !in_some_partition(
                                self.partitions@,
                                #[trigger] part@[k],
                            ),
                        forall|k: int|
                            0 <= k < queue@.len() ==> part@.contains(#[trigger] queue@[k]),
                        forall|k: int|
                            0 <= k < part@.len() ==> self.topology.spec_connected(
                                a,
                                #[trigger] part@[k],
                            ),
                        partitions_closed(self.topology, self.partitions@),
                        forall|k1: int, k2: int|
                            0 <= k1 < k2 < queue@.len() ==> queue@[k1] != queue@[k2],
                        forall|k: int, d: AgentId|
                            0 <= k < part@.len() && !queue@.contains(part@[k])
                                && #[trigger] self.topology.spec_usable(part@[k], d)
                                && self.topology.spec_has_agent(d) ==> assigned@.contains(d),
                        used.finite(),
                        used.subset_of(vstd::set_lib::set_int_range(0, links_len)),
                        forall|j: int|
                            used.contains(j) ==> assigned@.contains(
                                #[trigger] self.topology.links@[j].destination,
                            ),
                        assigned@.len() == base + used.len(),
                        assigned@.len() <= base + links_len,
                    decreases 2 * (base + links_len - assigned@.len()) + queue@.len(),
                {
                    let ghost queue0 = queue@;
                    let current = queue.remove(0);
                    proof {
                        assert(current == queue0[0]);
                        assert(part@.contains(current));
                        assert forall|x: AgentId|
                            queue@.contains(x) implies part@.contains(x) && queue0.contains(
                            x,
                        ) by {
                            let k = choose|k: int| 0 <= k < queue@.len() && queue@[k] == x;
                            assert(queue0[k + 1] == x);
                        }
                        assert forall|x: AgentId|
                            queue0.contains(x) && x != current implies queue@.contains(x) by {
                            let k = choose|k: int| 0 <= k < queue0.len() && queue0[k] == x;
                            assert(k != 0);
                            assert(queue@[k - 1] == x);
                        }
                        if queue@.contains(current) {
                            let k = choose|k: int|
                                0 <= k < queue@.len() && queue@[k] == current;
                            assert(queue0[k + 1] == current && queue0[0] == current);
                            assert(false);
                        }
                        let ck = choose|k: int| 0 <= k < part@.len() && part@[k] == current;
                        assert(self.topology.spec_connected(a, current));
                    }
                    let neighbors = self.topology.get_neighbors(current);
                    let ghost q_after_pop = queue@;
                    let ghost a_after_pop = assigned@;
                    let mut ni: usize = 0;
                    while ni < neighbors.len()
                        invariant
                            self.topology == old(self).topology,
                            self.topology.wf(),
                            agents@ == self.topology.agent_ids(),
                            ai < agents@.len(),
                            a == agents@[ai as int],
                            links_len == self.topology.links@.len(),
                            ni <= neighbors@.len(),
                            queue@.len() - q_after_pop.len() == assigned@.len()
                                - a_after_pop.len(),
                            queue@.len() >= q_after_pop.len(),
                            self.topology.spec_connected(a, current),
                            forall|d: AgentId| #[trigger]
                                neighbors@.contains(d) == self.topology.spec_usable(current, d),
                            forall|k1: int, k2: int|
                                0 <= k1 < k2 < assigned@.len() ==> assigned@[k1]
                                    != assigned@[k2],
                            forall|k: int|
                                0 <= k < assigned@.len() ==> self.topology.spec_has_agent(
                                    #[trigger] assigned@[k],
                                ),
                            forall|x: AgentId| #[trigger]
                                assigned@.contains(x) == (in_some_partition(self.partitions@, x)
                                    || part@.contains(x)),
                            forall|m: int|
                                0 <= m < ai ==> assigned@.contains(#[trigger] agents@[m]),
                            partitions_exact(self.partitions@),
                            forall|pi: int|
                                0 <= pi < self.partitions@.len() ==> (#[trigger] self.partitions@[pi])@.len()
                                    >= 1,
                            forall|pi: int, k: int|
                                #![trigger self.partitions@[pi]@[k]]
                                0 <= pi < self.partitions@.len() && 0 <= k
                                    < self.partitions@[pi]@.len()
                                    ==> self.topology.spec_connected(
                                    self.partitions@[pi]@[0],
                                    self.partitions@[pi]@[k],
                                ),
                            part@.len() >= 1,
                            part@[0] == a,
                            forall|k1: int, k2: int|
                                0 <= k1 < k2 < part@.len() ==> part@[k1] != part@[k2],
                            forall|k: int|
                                0 <= k < part@.len() ==> assigned@.contains(
                                    #[trigger] part@[k],
                                ),
                            forall|k: int|
                                0 <= k < part@.len() ==> !in_some_partition(
                                    self.partitions@,
                                    #[trigger] part@[k],
                                ),
                            forall|k: int|
                                0 <= k < queue@.len() ==> part@.contains(
                                    #[trigger] queue@[k],
                                ),
                            forall|k: int|
                                0 <= k < part@.len() ==> self.topology.spec_connected(
                                    a,
                                    #[trigger] part@[k],
                                ),
                            partitions_closed(self.topology, self.partitions@),
                            part@.contains(current),
                            !queue@.contains(current),
                            forall|k1: int, k2: int|
                                0 <= k1 < k2 < queue@.len() ==> queue@[k1] != queue@[k2],
                            forall|k: int, d: AgentId|
                                0 <= k < part@.len() && part@[k] != current
                                    && !queue@.contains(part@[k])
                                    && #[trigger] self.topology.spec_usable(part@[k], d)
                                    && self.topology.spec_has_agent(d) ==> assigned@.contains(
                                    d,
                                ),
                            forall|m: int|
                                0 <= m < ni ==> !self.topology.spec_has_agent(
                                    #[trigger] neighbors@[m],
                                ) || assigned@.contains(neighbors@[m]),
                            used.finite(),
                            used.subset_of(vstd::set_lib::set_int_range(0, links_len)),
                            forall|j: int|
                                used.contains(j) ==> assigned@.contains(
                                    #[trigger] self.topology.links@[j].destination,
                                ),
                            assigned@.len() == base + used.len(),
                            assigned@.len() <= base + links_len,
                        decreases neighbors@.len() - ni,
                    {
                        let nb = neighbors[ni];
                        proof {
                            assert(neighbors@.contains(nb));
                            assert(self.topology.spec_usable(current, nb));
                        }
                        let registered = match self.topology.find_agent(nb) {
                            Some(_) => true,
                            None => false,
                        };
                        if registered && !vec_contains(&assigned, nb) {
                            let ghost assigned0 = assigned@;
                            let ghost part0 = part@;
                            let ghost queue1 = queue@;
                            proof {
                                let j = choose|j: int|
                                    0 <= j < self.topology.links@.len()
                                        && (#[trigger] self.topology.links@[j]).source == current
                                        && self.topology.links@[j].destination == nb;
                                assert(!used.contains(j));
                                used = used.insert(j);
                                vstd::set_lib::lemma_int_range(0, links_len);
                                vstd::set_lib::lemma_len_subset(
                                    used,
                                    vstd::set_lib::set_int_range(0, links_len),
                                );
                                self.topology.lemma_connected_step(a, current, nb);
                                self.topology.lemma_agent_ids_index();
                            }
                            assigned.push(nb);
                            part.push(nb);
                            queue.push(nb);
                            proof {
                                assert(assigned@[assigned@.len() - 1] == nb);
                                assert(part@[part@.len() - 1] == nb);
                                assert(queue@[queue@.len() - 1] == nb);
                                assert forall|x: AgentId|
                                    assigned0.contains(x) implies assigned@.contains(x) by {
                                    let k = choose|k: int|
                                        0 <= k < assigned0.len() && assigned0[k] == x;
                                    assert(assigned@[k] == x);
                                }
                                assert forall|x: AgentId|
                                    part0.contains(x) implies part@.contains(x) by {
                                    let k = choose|k: int| 0 <= k < part0.len() && part0[k] == x;
                                    assert(part@[k] == x);
                                }
                                assert forall|x: AgentId|
                                    queue1.contains(x) implies queue@.contains(x) by {
                                    let k = choose|k: int|
                                        0 <= k < queue1.len() && queue1[k] == x;
                                    assert(queue@[k] == x);
                                }
                                assert forall|x: AgentId|
                                    assigned@.contains(x) implies assigned0.contains(x) || x
                                        == nb by {
                                    let k = choose|k: int|
                                        0 <= k < assigned@.len() && assigned@[k] == x;
                                    if k < assigned0.len() {
                                        assert(assigned0[k] == x);
                                    }
                                }
                                assert forall|x: AgentId|
                                    part@.contains(x) implies part0.contains(x) || x == nb by {
                                    let k = choose|k: int|
                                        0 <= k < part@.len() && part@[k] == x;
                                    if k < part0.len() {
                                        assert(part0[k] == x);
                                    }
                                }
                                assert forall|x: AgentId|
                                    queue@.contains(x) implies queue1.contains(x) || x == nb by {
                                    let k = choose|k: int|
                                        0 <= k < queue@.len() && queue@[k] == x;
                                    if k < queue1.len() {
                                        assert(queue1[k] == x);
                                    }
                                }
                                assert forall|x: AgentId|
                                    #[trigger] assigned@.contains(x) == (in_some_partition(
                                    self.partitions@,
                                    x,
                                ) || part@.contains(x)) by {
                                    assert(assigned0.contains(x) == (in_some_partition(
                                        self.partitions@,
                                        x,
                                    ) || part0.contains(x)));
                                    if assigned@.contains(x) {
                                        assert(assigned0.contains(x) || x == nb);
                                        assert(in_some_partition(self.partitions@, x)
                                            || part@.contains(x));
                                    }
                                    if in_some_partition(self.partitions@, x) {
                                        assert(assigned0.contains(x));
                                        assert(assigned@.contains(x));
                                    }
                                    if part@.contains(x) {
                                        assert(part0.contains(x) || x == nb);
                                        assert(assigned@.contains(x));
                                    }
                                }
                                assert forall|k1: int, k2: int|
                                    0 <= k1 < k2 < queue@.len() implies queue@[k1]
                                        != queue@[k2] by {
                                    if k2 == queue@.len() - 1 {
                                        assert(queue@[k1] == queue1[k1]);
                                        assert(part0.contains(queue1[k1]));
                                        let kp = choose|kp: int|
                                            0 <= kp < part0.len() && part0[kp] == queue1[k1];
                                        assert(assigned0.contains(part0[kp]));
                                        assert(queue@[k1] != nb);
                                    } else {
                                        assert(queue@[k1] == queue1[k1]
                                            && queue@[k2] == queue1[k2]);
                                    }
                                }
                                assert forall|k: int, d: AgentId|
                                    0 <= k < part@.len() && part@[k] != current
                                        && !queue@.contains(part@[k])
                                        && #[trigger] self.topology.spec_usable(part@[k], d)
                                        && self.topology.spec_has_agent(d) implies
                                        assigned@.contains(d) by {
                                    if k < part0.len() {
                                        assert(part@[k] == part0[k]);
                                        if queue1.contains(part0[k]) {
                                            assert(queue@.contains(part0[k]));
                                        }
                                        assert(assigned0.contains(d));
                                    } else {
                                        assert(part@[k] == nb);
                                        assert(queue@[queue@.len() - 1] == nb);
                                    }
                                }
                            }
                        }
                        ni += 1;
                    }
                    proof {
                        assert forall|k: int, d: AgentId|
                            0 <= k < part@.len() && !queue@.contains(part@[k])
                                && #[trigger] self.topology.spec_usable(part@[k], d)
                                && self.topology.spec_has_agent(d) implies assigned@.contains(
                            d,
                        ) by {
                            if part@[k] == current {
                                assert(neighbors@.contains(d));
                                let m = choose|m: int|
                                    0 <= m < neighbors@.len() && neighbors@[m] == d;
                                assert(!self.topology.spec_has_agent(neighbors@[m])
                                    || assigned@.contains(neighbors@[m]));
                            }
                        }
                    }
                }
                let ghost parts0 = self.partitions@;
                let ghost partv = part@;
                self.partitions.push(part);
                proof {
                    assert(self.partitions@[self.partitions@.len() - 1]@ == partv);
                    assert forall|x: AgentId|
                        #[trigger] assigned@.contains(x) == in_some_partition(
                        self.partitions@,
                        x,
                    ) by {
                        if assigned@.contains(x) {
                            if in_some_partition(parts0, x) {
                                let pi = choose|pi: int|
                                    0 <= pi < parts0.len() && (#[trigger] parts0[pi])@.contains(
                                        x,
                                    );
                                assert((self.partitions@[pi])@.contains(x));
                            } else {
                                assert(partv.contains(x));
                                assert((self.partitions@[self.partitions@.len() - 1])@.contains(
                                    x,
                                ));
                            }
                        }
                        if in_some_partition(self.partitions@, x) {
                            let pi = choose|pi: int|
                                0 <= pi < self.partitions@.len()
                                    && (#[trigger] self.partitions@[pi])@.contains(x);
                            if pi < parts0.len() {
                                assert(parts0[pi]@.contains(x));
                            } else {
                                assert(partv.contains(x));
                            }
                        }
                    }
                    assert forall|pi: int, k: int, d: AgentId|
                        0 <= pi < self.partitions@.len() && 0 <= k
                            < self.partitions@[pi]@.len()
                            && #[trigger] self.topology.spec_usable(self.partitions@[pi]@[k], d)
                            && self.topology.spec_has_agent(d) implies exists|pj: int|
                            0 <= pj <= pi && (#[trigger] self.partitions@[pj])@.contains(d) by {
                        let last = self.partitions@.len() - 1;
                        if pi < last {
                            assert(self.partitions@[pi]@[k] == parts0[pi]@[k]);
                            assert(self.topology.spec_usable(parts0[pi]@[k], d));
                            let pj = choose|pj: int|
                                0 <= pj <= pi && (#[trigger] parts0[pj])@.contains(d);
                            assert((self.partitions@[pj])@.contains(d));
                        } else {
                            assert(self.partitions@[pi]@[k] == partv[k]);
                            assert(!queue@.contains(partv[k]));
                            assert(assigned@.contains(d));
                            if in_some_partition(parts0, d) {
                                let pj = choose|pj: int|
                                    0 <= pj < parts0.len() && (#[trigger] parts0[pj])@.contains(
                                        d,
                                    );
                                assert((self.partitions@[pj])@.contains(d));
                            } else {
                                assert(partv.contains(d));
                                assert((self.partitions@[last])@.contains(d));
                            }
                        }
                    }
                    assert forall|p1: int, k1: int, p2: int, k2: int|
                        #![trigger self.partitions@[p1]@[k1], self.partitions@[p2]@[k2]]
                        0 <= p1 < self.partitions@.len() && 0 <= k1
                            < self.partitions@[p1]@.len() && 0 <= p2 < self.partitions@.len()
                            && 0 <= k2 < self.partitions@[p2]@.len() && (p1 != p2 || k1 != k2)
                            implies self.partitions@[p1]@[k1] != self.partitions@[p2]@[k2] by {
                        let last = self.partitions@.len() - 1;
                        if p1 < last && p2 < last {
                        } else if p1 == last && p2 == last {
                        } else if p1 == last {
                            assert(partv.contains(self.partitions@[p1]@[k1]));
                            assert(parts0[p2]@.contains(self.partitions@[p2]@[k2]));
                        } else {
                            assert(partv.contains(self.partitions@[p2]@[k2]));
                            assert(parts0[p1]@.contains(self.partitions@[p1]@[k1]));
                        }
                    }
                }
            }
            ai += 1;
        }
        self.last_detection_ms = self.topology.current_time_ms;
        proof {
            assert forall|a: AgentId|
                #[trigger] in_some_partition(self.partitions@, a)
                    == self.topology.spec_has_agent(a) by {
                if in_some_partition(self.partitions@, a) {
                    assert(assigned@.contains(a));
                    let k = choose|k: int| 0 <= k < assigned@.len() && assigned@[k] == a;
                    assert(self.topology.spec_has_agent(assigned@[k]));
                }
                if self.topology.spec_has_agent(a) {
                    let m = choose|m: int|
                        0 <= m < self.topology.agent_ids().len()
                            && self.topology.agent_ids()[m] == a;
                    assert(agents@[m] == a);
                    assert(assigned@.contains(agents@[m]));
                }
            }
        }
        &self.partitions
    }

    /// Number of partitions found by the last detection.
    pub fn partition_count(&self) -> (r: usize)
        ensures
            r == self.partitions@.len(),
    {
        self.partitions.len()
    }

    /// Whether the network is fragmented: more than one partition.
    pub fn is_partitioned(&self) -> (r: bool)
        ensures
            r == (self.partitions@.len() > 1),
    {
        self.partitions.len() > 1
    }

    /// The members of a largest partition, or `None` when no detection
    /// has run or no agent is known.  Ties go to the first-found
    /// partition, deterministically.
    pub fn largest_partition(&self) -> (r: Option<Vec<AgentId>>)
        ensures
            r.is_some() == (self.partitions@.len() > 0),
            r.is_some() ==> exists|pi: int|
                0 <= pi < self.partitions@.len() && r.unwrap()@ == (#[trigger] self.partitions@[pi])@,
            r.is_some() ==> forall|pi: int|
                0 <= pi < self.partitions@.len() ==> (#[trigger] self.partitions@[pi])@.len()
                    <= r.unwrap()@.len(),
    {
        if self.partitions.len() == 0 {
            return None;
        }
        let mut best: usize = 0;
        let mut pi: usize = 1;
        while pi < self.partitions.len()
            invariant
                self.partitions@.len() > 0,
                best < pi <= self.partitions@.len(),
                forall|t: int|
                    0 <= t < pi ==> (#[trigger] self.partitions@[t])@.len()
                        <= self.partitions@[best as int]@.len(),
            decreases self.partitions@.len() - pi,
        {
            if self.partitions[pi].len() > self.partitions[best].len() {
                best = pi;
            }
            pi += 1;
        }
        let out = copy_ids(&self.partitions[best]);
        proof {
            assert(out@ == self.partitions@[best as int]@);
        }
        Some(out)
    }

    /// The partition containing `agent`, or `None` if it is unknown.
    pub fn get_partition(&self, agent: AgentId) -> (r: Option<Vec<AgentId>>)
        ensures
            r.is_some() == in_some_partition(self.partitions@, agent),
            r.is_some() ==> r.unwrap()@.contains(agent) && exists|pi: int|
                0 <= pi < self.partitions@.len() && r.unwrap()@ == (#[trigger] self.partitions@[pi])@,
    {
        let mut pi: usize = 0;
        while pi < self.partitions.len()
            invariant
                pi <= self.partitions@.len(),
                forall|t: int|
                    0 <= t < pi ==> !(#[trigger] self.partitions@[t])@.contains(agent),
            decreases self.partitions@.len() - pi,
        {
            if vec_contains(&self.partitions[pi], agent) {
                let out = copy_ids(&self.partitions[pi]);
                proof {
                    assert((self.partitions@[pi as int])@.contains(agent));
                }
                return Some(out);
            }
            pi += 1;
        }
        proof {
            if in_some_partition(self.partitions@, agent) {
                let t = choose|t: int|
                    0 <= t < self.partitions@.len() && (#[trigger] self.partitions@[t])@.contains(
                        agent,
                    );
                assert(false);
            }
        }
        None
    }
}

} // verus!
