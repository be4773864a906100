//! Network topology with per-link quality tracking.
//!
//! Agents are mobile units identified by an [`AgentId`]; links are directed
//! edges carrying a point-in-time [`LinkQuality`] measurement.  Links expire
//! when time advances past their timeout; queries (neighbours, connectivity,
//! routing) only see links whose quality clears the configured thresholds.

use vstd::prelude::*;

use crate::units::{clamp_i64, clamp_spec};

verus! {

/// Identifier of a mobile unit in the communications mesh.
///
/// Uniqueness is caller-enforced; identifiers are not reused while the
/// agent is live.
pub type AgentId = usize;

/// A 3D point, in millimetres.
///
/// The graph does not interpret coordinate-frame semantics, only distances.
#[derive(Debug, Clone, Copy, PartialEq, Eq, Structural)]
pub struct Position {
    pub x_mm: i64,
    pub y_mm: i64,
    pub z_mm: i64,
}

/// Per-link signal metrics.
///
/// `snr_mdb` is the signal-to-noise ratio in milli-dB, `rssi_mdbm` the
/// received signal strength in milli-dBm, `packet_loss_ppm` the loss rate
/// in parts per million of one, `latency_ms` the link latency in
/// milliseconds, `bandwidth_bps` the available bandwidth in bits per
/// second and `active_duration_ms` how long the link has been active.
#[derive(Debug, Clone, Copy, PartialEq, Eq, Structural)]
pub struct LinkQuality {
    pub snr_mdb: i64,
    pub rssi_mdbm: i64,
    pub packet_loss_ppm: i64,
    pub latency_ms: i64,
    pub bandwidth_bps: u64,
    pub active_duration_ms: i64,
}

/// Composite link score on the parts-per-million scale:
/// `0.5 * clamp(snr/30dB, 0, 1) + 0.3 * (1 - clamp(loss, 0, 1))
///  + 0.2 * (1 - clamp(latency/1s, 0, 1))`.
pub open spec fn score_spec(snr_mdb: int, loss_ppm: int, latency_ms: int) -> int {
    50 * clamp_spec(snr_mdb, 0, 30_000) / 3
        + 3 * (1_000_000 - clamp_spec(loss_ppm, 0, 1_000_000)) / 10
        + 200 * (1_000 - clamp_spec(latency_ms, 0, 1_000))
}

impl LinkQuality {
    /// Whether the link clears both quality thresholds.
    pub fn is_usable(&self, min_snr_mdb: i64, max_packet_loss_ppm: i64) -> (r: bool)
        ensures
            r == (self.snr_mdb >= min_snr_mdb && self.packet_loss_ppm <= max_packet_loss_ppm),
    {
        self.snr_mdb >= min_snr_mdb && self.packet_loss_ppm <= max_packet_loss_ppm
    }

    /// Composite quality score in parts per million of one.
    ///
    /// Higher is better; this is the sole input to the routing edge cost.
    pub fn compute_score(&self) -> (r: i64)
        ensures
            r == score_spec(self.snr_mdb as int, self.packet_loss_ppm as int,
                self.latency_ms as int),
            0 <= r <= 1_000_000,
    {
        let snr_term: i64 = 50 * clamp_i64(self.snr_mdb, 0, 30_000) / 3;
        let loss_term: i64 = 3 * (1_000_000 - clamp_i64(self.packet_loss_ppm, 0, 1_000_000)) / 10;
        let latency_term: i64 = 200 * (1_000 - clamp_i64(self.latency_ms, 0, 1_000));
        snr_term + loss_term + latency_term
    }
}

impl Default for LinkQuality {
    /// A nominal healthy link: 20 dB SNR, -60 dBm RSSI, no loss,
    /// 10 ms latency, 10 Mbps.
    fn default() -> (r: Self)
        ensures
            r.snr_mdb == 20_000,
            r.rssi_mdbm == -60_000,
            r.packet_loss_ppm == 0,
            r.latency_ms == 10,
            r.bandwidth_bps == 10_000_000,
            r.active_duration_ms == 0,
    {
        LinkQuality {
            snr_mdb: 20_000,
            rssi_mdbm: -60_000,
            packet_loss_ppm: 0,
            latency_ms: 10,
            bandwidth_bps: 10_000_000,
            active_duration_ms: 0,
        }
    }
}

/// The link score never leaves `[0, 1]` (in parts per million).
pub proof fn lemma_score_in_range(snr_mdb: int, loss_ppm: int, latency_ms: int)
    ensures
        0 <= score_spec(snr_mdb, loss_ppm, latency_ms) <= 1_000_000,
{
}

/// The link score is monotone in each input: it does not decrease when the
/// SNR rises, and does not increase when the packet loss rate or the
/// latency rises, the other inputs held fixed.
pub proof fn lemma_score_monotone(
    snr1: int, loss1: int, lat1: int,
    snr2: int, loss2: int, lat2: int,
)
    requires
        snr1 <= snr2,
        loss2 <= loss1,
        lat2 <= lat1,
    ensures
        score_spec(snr1, loss1, lat1) <= score_spec(snr2, loss2, lat2),
{
    let c1 = clamp_spec(snr1, 0, 30_000);
    let c2 = clamp_spec(snr2, 0, 30_000);
    assert(50 * c1 / 3 <= 50 * c2 / 3) by {
        vstd::arithmetic::div_mod::lemma_div_is_ordered(50 * c1, 50 * c2, 3);
    }
    let l1 = 1_000_000 - clamp_spec(loss1, 0, 1_000_000);
    let l2 = 1_000_000 - clamp_spec(loss2, 0, 1_000_000);
    assert(3 * l1 / 10 <= 3 * l2 / 10) by {
        vstd::arithmetic::div_mod::lemma_div_is_ordered(3 * l1, 3 * l2, 10);
    }
}

/// Filtering one more element extends the filtered prefix by that
/// element exactly when it satisfies the predicate.
proof fn lemma_filter_one_more(s: Seq<LinkState>, pred: spec_fn(LinkState) -> bool, i: int)
    requires
        0 <= i < s.len(),
    ensures
        s.subrange(0, i + 1).filter(pred) == if pred(s[i]) {
            s.subrange(0, i).filter(pred).push(s[i])
        } else {
            s.subrange(0, i).filter(pred)
        },
{
    reveal_with_fuel(Seq::filter, 2);
    assert(s.subrange(0, i + 1).drop_last() =~= s.subrange(0, i));
    assert(s.subrange(0, i + 1).last() == s[i]);
}

/// Every element of a filtered sequence occurs in the sequence.
proof fn lemma_filter_sub_elements(s: Seq<LinkState>, pred: spec_fn(LinkState) -> bool)
    ensures
        forall|k: int|
            0 <= k < s.filter(pred).len() ==> s.contains(#[trigger] s.filter(pred)[k]),
    decreases s.len(),
{
    reveal_with_fuel(Seq::filter, 2);
    if s.len() > 0 {
        lemma_filter_sub_elements(s.drop_last(), pred);
        assert forall|k: int|
            0 <= k < s.filter(pred).len() implies s.contains(#[trigger] s.filter(pred)[k]) by {
            if k < s.drop_last().filter(pred).len() {
                assert(s.filter(pred)[k] == s.drop_last().filter(pred)[k]);
                let j = choose|j: int|
                    0 <= j < s.drop_last().len() && s.drop_last()[j] == s.filter(pred)[k];
                assert(s[j] == s.filter(pred)[k]);
            } else {
                assert(s.filter(pred)[k] == s.last());
                assert(s[s.len() - 1] == s.filter(pred)[k]);
            }
        }
    }
}

/// Filtering preserves uniqueness of the (source, destination) pairs.
proof fn lemma_filter_pairs_unique(s: Seq<LinkState>, pred: spec_fn(LinkState) -> bool)
    requires
        forall|i: int, j: int|
            0 <= i < j < s.len() ==> !((#[trigger] s[i]).source == (#[trigger] s[j]).source
                && s[i].destination == s[j].destination),
    ensures
        forall|i: int, j: int|
            0 <= i < j < s.filter(pred).len() ==> !((#[trigger] s.filter(pred)[i]).source
                == (#[trigger] s.filter(pred)[j]).source && s.filter(pred)[i].destination
                == s.filter(pred)[j].destination),
    decreases s.len(),
{
    reveal_with_fuel(Seq::filter, 2);
    if s.len() > 0 {
        let d = s.drop_last();
        assert(forall|i: int, j: int|
            0 <= i < j < d.len() ==> !((#[trigger] d[i]).source == (#[trigger] d[j]).source
                && d[i].destination == d[j].destination));
        lemma_filter_pairs_unique(d, pred);
        lemma_filter_sub_elements(d, pred);
        assert forall|i: int, j: int|
            0 <= i < j < s.filter(pred).len() implies !((#[trigger] s.filter(pred)[i]).source
                == (#[trigger] s.filter(pred)[j]).source && s.filter(pred)[i].destination
                == s.filter(pred)[j].destination) by {
            if j < d.filter(pred).len() {
                assert(s.filter(pred)[i] == d.filter(pred)[i]);
                assert(s.filter(pred)[j] == d.filter(pred)[j]);
            } else {
                assert(s.filter(pred)[j] == s.last());
                assert(s.filter(pred)[i] == d.filter(pred)[i]);
                let m = choose|m: int|
                    0 <= m < d.len() && d[m] == d.filter(pred)[i];
                assert(s[m] == s.filter(pred)[i]);
                assert(s[s.len() - 1] == s.last());
            }
        }
    }
}

impl Default for NetworkTopology {
    /// Same as `new`: an empty topology with the default thresholds.
    fn default() -> (r: Self)
        ensures
            r.wf(),
            r.agent_ids() =~= Seq::<AgentId>::empty(),
            r.links@ =~= Seq::<LinkState>::empty(),
            r.current_time_ms == 0,
            r.link_timeout_ms == 5_000,
            r.min_snr_mdb == 10_000,
            r.max_packet_loss_ppm == 100_000,
    {
        NetworkTopology::new()
    }
}

/// Index of the entry carrying identifier `a` in an agent list.
pub open spec fn agent_index_of(agents: Seq<AgentEntry>, a: AgentId) -> int {
    choose|i: int| 0 <= i < agents.len() && (#[trigger] agents[i]).id == a
}

/// A directed link between two agents, carrying a point-in-time quality
/// measurement and the time it was last refreshed.
///
/// At most one `LinkState` exists per ordered pair; bidirectional
/// communication requires two independent entries, which may differ in
/// quality.
#[derive(Debug, Clone, Copy, PartialEq, Eq, Structural)]
pub struct LinkState {
    pub source: AgentId,
    pub destination: AgentId,
    pub quality: LinkQuality,
    pub last_update_ms: i64,
}

/// A registered agent together with its last reported position.
#[derive(Debug, Clone, Copy)]
pub struct AgentEntry {
    pub id: AgentId,
    pub position: Position,
}

/// The agent/link graph, with time-based link expiry and quality
/// thresholds that gate which links queries may use.
/// The fields are public so that specifications can speak of them;
/// callers are expected to go through the methods, whose contracts
/// preserve `wf`.
#[derive(Debug, Clone)]
pub struct NetworkTopology {
    pub agents: Vec<AgentEntry>,
    pub links: Vec<LinkState>,
    pub current_time_ms: i64,
    pub link_timeout_ms: i64,
    pub min_snr_mdb: i64,
    pub max_packet_loss_ppm: i64,
}

impl NetworkTopology {
    /// The registered agent identifiers, in registration order.
    pub open spec fn agent_ids(self) -> Seq<AgentId> {
        self.agents@.map_values(|a: AgentEntry| a.id)
    }

    /// Whether `id` is a registered agent.
    pub open spec fn spec_has_agent(self, id: AgentId) -> bool {
        self.agent_ids().contains(id)
    }

    /// The stored position of a registered agent; meaningful only when
    /// `spec_has_agent` holds (well-formedness makes the entry unique).
    pub open spec fn spec_position(self, id: AgentId) -> Position {
        self.agents@[self.agent_index(id)].position
    }

    /// Whether a directed link `source -> destination` is present.
    pub open spec fn spec_has_link(self, source: AgentId, destination: AgentId) -> bool {
        exists|i: int|
            0 <= i < self.links@.len() && (#[trigger] self.links@[i]).source == source
                && self.links@[i].destination == destination
    }

    /// The link for the ordered pair; meaningful only when
    /// `spec_has_link` holds (well-formedness makes the pair unique).
    pub open spec fn spec_link(self, source: AgentId, destination: AgentId) -> LinkState {
        self.links@[choose|i: int|
            0 <= i < self.links@.len() && (#[trigger] self.links@[i]).source == source
                && self.links@[i].destination == destination]
    }

    /// Whether the link `source -> destination` exists and clears the
    /// configured quality thresholds, so that queries may use it.
    pub open spec fn spec_usable(self, source: AgentId, destination: AgentId) -> bool {
        &&& self.spec_has_link(source, destination)
        &&& self.spec_link(source, destination).quality.snr_mdb >= self.min_snr_mdb
        &&& self.spec_link(source, destination).quality.packet_loss_ppm
            <= self.max_packet_loss_ppm
    }

    /// Structural invariant: agent identifiers and link pairs are unique,
    /// and every time stamp is within the current time.
    pub open spec fn wf(self) -> bool {
        &&& forall|i: int, j: int|
            0 <= i < j < self.agents@.len() ==> (#[trigger] self.agents@[i]).id
                != (#[trigger] self.agents@[j]).id
        &&& forall|i: int, j: int|
            0 <= i < j < self.links@.len() ==> !((#[trigger] self.links@[i]).source
                == (#[trigger] self.links@[j]).source
                && self.links@[i].destination == self.links@[j].destination)
        &&& forall|i: int|
            0 <= i < self.links@.len() ==> 0 <= (#[trigger] self.links@[i]).last_update_ms
                <= self.current_time_ms
        &&& 0 <= self.current_time_ms
        &&& 0 <= self.link_timeout_ms
    }

    /// A fresh topology with the default thresholds: 5 s link timeout,
    /// 10 dB minimum SNR, 0.1 maximum packet loss.
    pub fn new() -> (r: Self)
        ensures
            r.wf(),
            r.agent_ids() =~= Seq::<AgentId>::empty(),
            r.links@ =~= Seq::<LinkState>::empty(),
            r.current_time_ms == 0,
            r.link_timeout_ms == 5_000,
            r.min_snr_mdb == 10_000,
            r.max_packet_loss_ppm == 100_000,
    {
        NetworkTopology {
            agents: Vec::new(),
            links: Vec::new(),
            current_time_ms: 0,
            link_timeout_ms: 5_000,
            min_snr_mdb: 10_000,
            max_packet_loss_ppm: 100_000,
        }
    }

    /// Index of `id` in the agent list, if registered.
    pub(crate) fn find_agent(&self, id: AgentId) -> (r: Option<usize>)
        ensures
            match r {
                Some(i) => i < self.agents@.len() && self.agents@[i as int].id == id,
                None => !self.spec_has_agent(id),
            },
    {
        let mut i: usize = 0;
        while i < self.agents.len()
            invariant
                i <= self.agents@.len(),
                forall|j: int| 0 <= j < i ==> (#[trigger] self.agents@[j]).id != id,
            decreases self.agents@.len() - i,
        {
            if self.agents[i].id == id {
                return Some(i);
            }
            i += 1;
        }
        proof {
            assert(forall|j: int|
                0 <= j < self.agent_ids().len() ==> self.agent_ids()[j]
                    == (#[trigger] self.agents@[j]).id);
        }
        None
    }

    /// Index of the link for the ordered pair, if present.
    fn find_link(&self, source: AgentId, destination: AgentId) -> (r: Option<usize>)
        ensures
            match r {
                Some(i) => i < self.links@.len() && self.links@[i as int].source == source
                    && self.links@[i as int].destination == destination,
                None => !self.spec_has_link(source, destination),
            },
    {
        let mut i: usize = 0;
        while i < self.links.len()
            invariant
                i <= self.links@.len(),
                forall|j: int|
                    0 <= j < i ==> !((#[trigger] self.links@[j]).source == source
                        && self.links@[j].destination == destination),
            decreases self.links@.len() - i,
        {
            if self.links[i].source == source && self.links[i].destination == destination {
                return Some(i);
            }
            i += 1;
        }
        None
    }

    /// Index-wise reading of `agent_ids`.
    pub(crate) proof fn lemma_agent_ids_index(self)
        ensures
            self.agent_ids().len() == self.agents@.len(),
            forall|k: int|
                0 <= k < self.agents@.len() ==> (#[trigger] self.agents@[k]).id
                    == self.agent_ids()[k],
    {
    }

    /// Register an agent, or refresh its position if already registered.
    pub fn add_agent(&mut self, id: AgentId, position: Position)
        requires
            old(self).wf(),
        ensures
            final(self).wf(),
            final(self).spec_has_agent(id),
            forall|a: AgentId| #[trigger]
                final(self).spec_has_agent(a) == (old(self).spec_has_agent(a) || a == id),
            final(self).spec_position(id) == position,
            forall|a: AgentId|
                a != id && old(self).spec_has_agent(a) ==> #[trigger] final(self).spec_position(
                    a,
                ) == old(self).spec_position(a),
            final(self).links@ == old(self).links@,
            final(self).current_time_ms == old(self).current_time_ms,
            final(self).link_timeout_ms == old(self).link_timeout_ms,
            final(self).min_snr_mdb == old(self).min_snr_mdb,
            final(self).max_packet_loss_ppm == old(self).max_packet_loss_ppm,
    {
        let found = self.find_agent(id);
        match found {
            Some(i) => {
                self.agents[i] = AgentEntry { id, position };
                proof {
                    self.lemma_agent_ids_index();
                    old(self).lemma_agent_ids_index();
                    assert(self.agent_ids() =~= old(self).agent_ids());
                    assert(self.agent_ids()[i as int] == id);
                    self.lemma_agent_index(id);
                    assert(self.agent_index(id) == i as int);
                    assert(self.spec_position(id) == position);
                    assert forall|a: AgentId|
                        a != id && old(self).spec_has_agent(a) implies
                        #[trigger] self.spec_position(a) == old(self).spec_position(a) by {
                        old(self).lemma_agent_index(a);
                        let k = old(self).agent_index(a);
                        assert(k != i as int);
                        assert(self.agents@[k] == old(self).agents@[k]);
                        self.lemma_agent_index(a);
                        assert(self.agent_index(a) == k);
                    }
                }
            },
            None => {
                self.agents.push(AgentEntry { id, position });
                proof {
                    self.lemma_agent_ids_index();
                    old(self).lemma_agent_ids_index();
                    assert(self.agent_ids() =~= old(self).agent_ids().push(id));
                    assert(self.agent_ids()[self.agent_ids().len() - 1] == id);
                    assert forall|a: AgentId|
                        #[trigger] self.spec_has_agent(a) == (old(self).spec_has_agent(a)
                            || a == id) by {
                        if self.spec_has_agent(a) {
                            let k = choose|k: int|
                                0 <= k < self.agent_ids().len() && self.agent_ids()[k] == a;
                            if k < old(self).agent_ids().len() {
                                assert(old(self).agent_ids()[k] == a);
                            }
                        }
                        if old(self).spec_has_agent(a) {
                            let k = choose|k: int|
                                0 <= k < old(self).agent_ids().len()
                                    && old(self).agent_ids()[k] == a;
                            assert(self.agent_ids()[k] == a);
                        }
                        if a == id {
                            assert(self.agent_ids()[self.agent_ids().len() - 1] == a);
                        }
                    }
                    self.lemma_agent_index(id);
                    assert(self.agent_index(id) == self.agents@.len() - 1);
                    assert(self.spec_position(id) == position);
                    assert forall|a: AgentId|
                        a != id && old(self).spec_has_agent(a) implies
                        #[trigger] self.spec_position(a) == old(self).spec_position(a) by {
                        old(self).lemma_agent_index(a);
                        let k = old(self).agent_index(a);
                        assert(self.agents@[k] == old(self).agents@[k]);
                        self.lemma_agent_index(a);
                        assert(self.agent_index(a) == k);
                    }
                }
            },
        }
    }

    /// Last reported position of an agent, if registered.
    pub fn get_position(&self, agent: AgentId) -> (r: Option<Position>)
        requires
            self.wf(),
        ensures
            r.is_some() == self.spec_has_agent(agent),
            r.is_some() ==> r.unwrap() == self.spec_position(agent),
    {
        match self.find_agent(agent) {
            Some(i) => {
                proof {
                    assert(self.agent_ids()[i as int] == self.agents@[i as int].id);
                    self.lemma_agent_index(agent);
                    assert(self.agent_index(agent) == i as int);
                }
                Some(self.agents[i].position)
            },
            None => None,
        }
    }

    /// Number of registered agents.
    pub fn agent_count(&self) -> (r: usize)
        ensures
            r == self.agent_ids().len(),
    {
        self.agents.len()
    }

    /// Number of links currently held, usable or not.
    pub fn link_count(&self) -> (r: usize)
        ensures
            r == self.links@.len(),
    {
        self.links.len()
    }

    /// All registered agent identifiers, in registration order.
    pub fn get_agents(&self) -> (r: Vec<AgentId>)
        ensures
            r@ == self.agent_ids(),
    {
        let mut out: Vec<AgentId> = Vec::new();
        let mut i: usize = 0;
        while i < self.agents.len()
            invariant
                i <= self.agents@.len(),
                out@.len() == i,
                forall|j: int| 0 <= j < i ==> out@[j] == self.agent_ids()[j],
            decreases self.agents@.len() - i,
        {
            out.push(self.agents[i].id);
            i += 1;
        }
        proof {
            assert(out@ =~= self.agent_ids());
        }
        out
    }

    /// The link state for the ordered pair, if present.
    pub fn get_link(&self, source: AgentId, destination: AgentId) -> (r: Option<LinkState>)
        requires
            self.wf(),
        ensures
            r.is_some() == self.spec_has_link(source, destination),
            r.is_some() ==> r.unwrap() == self.spec_link(source, destination),
    {
        match self.find_link(source, destination) {
            Some(i) => {
                proof {
                    let j = choose|j: int|
                        0 <= j < self.links@.len() && (#[trigger] self.links@[j]).source
                            == source && self.links@[j].destination == destination;
                    assert(j == i as int);
                }
                Some(self.links[i])
            },
            None => None,
        }
    }

    /// Add a link for the ordered pair, replacing any existing entry, with
    /// `last_update_ms` set to the current time.  No existence check is
    /// made on `source` or `destination` against the registered agents:
    /// that permissiveness is deliberate, documented behaviour.
    pub fn add_link(&mut self, source: AgentId, destination: AgentId, quality: LinkQuality)
        requires
            old(self).wf(),
        ensures
            final(self).wf(),
            final(self).spec_has_link(source, destination),
            final(self).spec_link(source, destination) == (LinkState {
                source,
                destination,
                quality,
                last_update_ms: old(self).current_time_ms,
            }),
            forall|s: AgentId, d: AgentId|
                !(s == source && d == destination) ==> #[trigger] final(self).spec_has_link(s, d)
                    == old(self).spec_has_link(s, d),
            forall|s: AgentId, d: AgentId|
                !(s == source && d == destination) && final(self).spec_has_link(s, d)
                    ==> #[trigger] final(self).spec_link(s, d) == old(self).spec_link(s, d),
            final(self).agents@ == old(self).agents@,
            final(self).current_time_ms == old(self).current_time_ms,
            final(self).link_timeout_ms == old(self).link_timeout_ms,
            final(self).min_snr_mdb == old(self).min_snr_mdb,
            final(self).max_packet_loss_ppm == old(self).max_packet_loss_ppm,
    {
        let link = LinkState {
            source,
            destination,
            quality,
            last_update_ms: self.current_time_ms,
        };
        let found = self.find_link(source, destination);
        match found {
            Some(i) => {
                self.links[i] = link;
                proof {
                    assert(self.links@[i as int] == link);
                    assert(self.links@ =~= old(self).links@.update(i as int, link));
                }
            },
            None => {
                self.links.push(link);
                proof {
                    assert(self.links@[self.links@.len() - 1] == link);
                    assert(self.links@ =~= old(self).links@.push(link));
                }
            },
        }
        proof {
            assert(self.wf());
            self.lemma_link_lookup(source, destination);
            assert forall|s: AgentId, d: AgentId|
                !(s == source && d == destination) && self.spec_has_link(s, d)
                    implies #[trigger] self.spec_link(s, d) == old(self).spec_link(s, d)
                    && old(self).spec_has_link(s, d) by {
                let i = choose|i: int|
                    0 <= i < self.links@.len() && (#[trigger] self.links@[i]).source == s
                        && self.links@[i].destination == d;
                assert(old(self).links@[i].source == s && old(self).links@[i].destination == d);
                old(self).lemma_link_lookup(s, d);
                self.lemma_link_lookup(s, d);
            }
            assert forall|s: AgentId, d: AgentId|
                !(s == source && d == destination) && old(self).spec_has_link(s, d)
                    implies #[trigger] self.spec_has_link(s, d) by {
                let i = choose|i: int|
                    0 <= i < old(self).links@.len() && (#[trigger] old(self).links@[i]).source
                        == s && old(self).links@[i].destination == d;
                assert(self.links@[i].source == s && self.links@[i].destination == d);
            }
        }
    }

    /// Deregister an agent.  Removal cascades: every link whose source or
    /// destination is `id` is deleted as well.
    pub fn remove_agent(&mut self, id: AgentId)
        requires
            old(self).wf(),
        ensures
            final(self).wf(),
            forall|a: AgentId| #[trigger]
                final(self).spec_has_agent(a) == (old(self).spec_has_agent(a) && a != id),
            forall|a: AgentId|
                final(self).spec_has_agent(a) ==> #[trigger] final(self).spec_position(a)
                    == old(self).spec_position(a),
            forall|s: AgentId, d: AgentId| #[trigger]
                final(self).spec_has_link(s, d) == (old(self).spec_has_link(s, d) && s != id
                    && d != id),
            forall|s: AgentId, d: AgentId|
                final(self).spec_has_link(s, d) ==> #[trigger] final(self).spec_link(s, d)
                    == old(self).spec_link(s, d),
            final(self).current_time_ms == old(self).current_time_ms,
            final(self).link_timeout_ms == old(self).link_timeout_ms,
            final(self).min_snr_mdb == old(self).min_snr_mdb,
            final(self).max_packet_loss_ppm == old(self).max_packet_loss_ppm,
    {
        match self.find_agent(id) {
            Some(i) => {
                self.agents.remove(i);
                proof {
                    old(self).lemma_agent_ids_index();
                    self.lemma_agent_ids_index();
                    assert(self.agent_ids() =~= old(self).agent_ids().remove(i as int));
                    assert forall|a: AgentId|
                        #[trigger] self.spec_has_agent(a) == (old(self).spec_has_agent(a)
                            && a != id) by {
                        if self.spec_has_agent(a) {
                            let k = choose|k: int|
                                0 <= k < self.agent_ids().len() && self.agent_ids()[k] == a;
                            if k < i {
                                assert(old(self).agent_ids()[k] == a);
                            } else {
                                assert(old(self).agent_ids()[k + 1] == a);
                            }
                            assert(a != id);
                        }
                        if old(self).spec_has_agent(a) && a != id {
                            let k = choose|k: int|
                                0 <= k < old(self).agent_ids().len()
                                    && old(self).agent_ids()[k] == a;
                            assert(k != i);
                            if k < i {
                                assert(self.agent_ids()[k] == a);
                            } else {
                                assert(self.agent_ids()[k - 1] == a);
                            }
                        }
                    }
                    assert forall|k1: int, k2: int|
                        0 <= k1 < k2 < self.agents@.len() implies (#[trigger] self.agents@[k1]).id
                            != (#[trigger] self.agents@[k2]).id by {
                        let o1: int = if k1 < i { k1 } else { k1 + 1 };
                        let o2: int = if k2 < i { k2 } else { k2 + 1 };
                        assert(self.agents@[k1] == old(self).agents@[o1]);
                        assert(self.agents@[k2] == old(self).agents@[o2]);
                    }
                    assert forall|a: AgentId|
                        self.spec_has_agent(a) implies #[trigger] self.spec_position(a)
                            == old(self).spec_position(a) by {
                        self.lemma_agent_index(a);
                        let k = self.agent_index(a);
                        let o: int = if k < i { k } else { k + 1 };
                        assert(self.agents@[k] == old(self).agents@[o]);
                        assert(old(self).agents@[o].id == a);
                        old(self).lemma_agent_index(a);
                        assert(old(self).agent_index(a) == o);
                    }
                }
            },
            None => {
                proof {
                    self.lemma_agent_ids_index();
                }
            },
        }
        let ghost mid = *self;
        let ghost pred = |l: LinkState| l.source != id && l.destination != id;
        let mut kept: Vec<LinkState> = Vec::new();
        let mut i: usize = 0;
        while i < self.links.len()
            invariant
                i <= self.links@.len(),
                *self == mid,
                self.links@ == old(self).links@,
                kept@ == self.links@.subrange(0, i as int).filter(pred),
                pred == (|l: LinkState| l.source != id && l.destination != id),
            decreases self.links@.len() - i,
        {
            let l = self.links[i];
            proof {
                lemma_filter_one_more(self.links@, pred, i as int);
            }
            if l.source != id && l.destination != id {
                kept.push(l);
            }
            i += 1;
        }
        proof {
            assert(self.links@.subrange(0, self.links@.len() as int) =~= self.links@);
        }
        self.links = kept;
        proof {
            old(self).lemma_filtered_links(pred, self.links@);
            assert forall|s: AgentId, d: AgentId|
                #[trigger] self.spec_has_link(s, d) == (old(self).spec_has_link(s, d) && s != id
                    && d != id) by {
                if old(self).spec_has_link(s, d) && s != id && d != id {
                    assert(pred(old(self).spec_link(s, d)));
                }
            }
            assert(self.agents@ == mid.agents@);
            assert forall|a: AgentId|
                #[trigger] self.spec_has_agent(a) == (old(self).spec_has_agent(a) && a != id)
                by {
                assert(self.agent_ids() == mid.agent_ids());
                assert(mid.spec_has_agent(a) == (old(self).spec_has_agent(a) && a != id));
            }
            assert forall|a: AgentId|
                self.spec_has_agent(a) implies #[trigger] self.spec_position(a)
                    == old(self).spec_position(a) by {
                assert(self.agent_ids() == mid.agent_ids());
                assert(mid.spec_has_agent(a));
                assert(agent_index_of(self.agents@, a) == agent_index_of(mid.agents@, a));
                assert(mid.spec_position(a) == old(self).spec_position(a));
            }
            assert forall|k1: int, k2: int|
                0 <= k1 < k2 < self.agents@.len() implies (#[trigger] self.agents@[k1]).id
                    != (#[trigger] self.agents@[k2]).id by {
                assert(self.agents@[k1] == mid.agents@[k1]);
                assert(self.agents@[k2] == mid.agents@[k2]);
            }
        }
    }

    /// Advance the simulation clock to `time_ms` and prune stale links:
    /// a link is retained exactly when its age at `time_ms` is strictly
    /// below the link timeout.
    pub fn update_time(&mut self, time_ms: i64)
        requires
            old(self).wf(),
            time_ms >= old(self).current_time_ms,
        ensures
            final(self).wf(),
            final(self).current_time_ms == time_ms,
            final(self).agents@ == old(self).agents@,
            final(self).link_timeout_ms == old(self).link_timeout_ms,
            final(self).min_snr_mdb == old(self).min_snr_mdb,
            final(self).max_packet_loss_ppm == old(self).max_packet_loss_ppm,
            forall|s: AgentId, d: AgentId| #[trigger]
                final(self).spec_has_link(s, d) == (old(self).spec_has_link(s, d)
                    && time_ms - old(self).spec_link(s, d).last_update_ms
                    < old(self).link_timeout_ms),
            forall|s: AgentId, d: AgentId|
                final(self).spec_has_link(s, d) ==> #[trigger] final(self).spec_link(s, d)
                    == old(self).spec_link(s, d),
    {
        let timeout = self.link_timeout_ms;
        let ghost pred = |l: LinkState| time_ms - l.last_update_ms < timeout;
        let mut kept: Vec<LinkState> = Vec::new();
        let mut i: usize = 0;
        while i < self.links.len()
            invariant
                i <= self.links@.len(),
                *self == *old(self),
                old(self).wf(),
                timeout == old(self).link_timeout_ms,
                time_ms >= old(self).current_time_ms,
                kept@ == self.links@.subrange(0, i as int).filter(pred),
                pred == (|l: LinkState| time_ms - l.last_update_ms < timeout),
            decreases self.links@.len() - i,
        {
            let l = self.links[i];
            proof {
                lemma_filter_one_more(self.links@, pred, i as int);
            }
            if time_ms - l.last_update_ms < timeout {
                kept.push(l);
            }
            i += 1;
        }
        proof {
            assert(self.links@.subrange(0, self.links@.len() as int) =~= self.links@);
        }
        self.links = kept;
        self.current_time_ms = time_ms;
        proof {
            old(self).lemma_filtered_links(pred, self.links@);
            assert forall|s: AgentId, d: AgentId|
                #[trigger] self.spec_has_link(s, d) == (old(self).spec_has_link(s, d)
                    && time_ms - old(self).spec_link(s, d).last_update_ms
                    < old(self).link_timeout_ms) by {
                if old(self).spec_has_link(s, d)
                    && time_ms - old(self).spec_link(s, d).last_update_ms
                    < old(self).link_timeout_ms {
                    assert(pred(old(self).spec_link(s, d)));
                }
            }
        }
    }

    /// All destinations reachable over a single usable link from `agent`.
    ///
    /// Unusable links are hidden from this query but remain in the data
    /// model until they expire or are removed.
    pub fn get_neighbors(&self, agent: AgentId) -> (r: Vec<AgentId>)
        requires
            self.wf(),
        ensures
            forall|d: AgentId| #[trigger] r@.contains(d) == self.spec_usable(agent, d),
            forall|k1: int, k2: int| 0 <= k1 < k2 < r@.len() ==> r@[k1] != r@[k2],
    {
        broadcast use vstd::seq_lib::group_filter_ensures;

        let ghost pred = |l: LinkState| l.source == agent && l.quality.snr_mdb >= self.min_snr_mdb
            && l.quality.packet_loss_ppm <= self.max_packet_loss_ppm;
        let mut picked: Vec<LinkState> = Vec::new();
        let mut i: usize = 0;
        while i < self.links.len()
            invariant
                i <= self.links@.len(),
                picked@ == self.links@.subrange(0, i as int).filter(pred),
                pred == (|l: LinkState| l.source == agent
                    && l.quality.snr_mdb >= self.min_snr_mdb
                    && l.quality.packet_loss_ppm <= self.max_packet_loss_ppm),
            decreases self.links@.len() - i,
        {
            let l = self.links[i];
            proof {
                lemma_filter_one_more(self.links@, pred, i as int);
            }
            if l.source == agent
                && l.quality.is_usable(self.min_snr_mdb, self.max_packet_loss_ppm) {
                picked.push(l);
            }
            i += 1;
        }
        proof {
            assert(self.links@.subrange(0, self.links@.len() as int) =~= self.links@);
        }
        let ghost filtered = self.links@.filter(pred);
        let mut out: Vec<AgentId> = Vec::new();
        let mut k: usize = 0;
        while k < picked.len()
            invariant
                k <= picked@.len(),
                picked@ == filtered,
                filtered == self.links@.filter(pred),
                out@.len() == k,
                forall|m: int| 0 <= m < k ==> out@[m] == filtered[m].destination,
            decreases picked@.len() - k,
        {
            out.push(picked[k].destination);
            k += 1;
        }
        proof {
            lemma_filter_sub_elements(self.links@, pred);
            lemma_filter_pairs_unique(self.links@, pred);
            assert forall|d: AgentId|
                #[trigger] out@.contains(d) == self.spec_usable(agent, d) by {
                if out@.contains(d) {
                    let m = choose|m: int| 0 <= m < out@.len() && out@[m] == d;
                    let e = filtered[m];
                    assert(pred(e));
                    let j = choose|j: int|
                        0 <= j < self.links@.len() && #[trigger] self.links@[j] == e;
                    self.lemma_link_lookup(agent, d);
                    assert(self.spec_usable(agent, d));
                }
                if self.spec_usable(agent, d) {
                    let e = self.spec_link(agent, d);
                    let j = choose|j: int|
                        0 <= j < self.links@.len() && (#[trigger] self.links@[j]).source
                            == agent && self.links@[j].destination == d;
                    self.lemma_link_lookup(agent, d);
                    assert(pred(self.links@[j]));
                    assert(filtered.contains(self.links@[j]));
                    let m = choose|m: int|
                        0 <= m < filtered.len() && filtered[m] == self.links@[j];
                    assert(out@[m] == d);
                }
            }
            assert forall|k1: int, k2: int|
                0 <= k1 < k2 < out@.len() implies out@[k1] != out@[k2] by {
                assert(pred(filtered[k1]) && pred(filtered[k2]));
                assert(!(filtered[k1].source == filtered[k2].source
                    && filtered[k1].destination == filtered[k2].destination));
            }
        }
        out
    }

    /// Whether `p` is a chain of usable links (a single agent is a
    /// trivial path).
    pub open spec fn is_usable_path(self, p: Seq<AgentId>) -> bool {
        &&& p.len() >= 1
        &&& forall|k: int| 0 <= k < p.len() - 1 ==> #[trigger] self.spec_usable(p[k], p[k + 1])
    }

    /// Whether some chain of usable links leads from `a` to `b`.
    /// Every agent is connected to itself.
    pub open spec fn spec_connected(self, a: AgentId, b: AgentId) -> bool {
        exists|p: Seq<AgentId>|
            #[trigger] self.is_usable_path(p) && p.first() == a && p.last() == b
    }

    /// Connectivity is reflexive, registered or not: the one-agent path.
    pub proof fn lemma_connected_self(self, a: AgentId)
        ensures
            self.spec_connected(a, a),
    {
        let p = seq![a];
        assert(self.is_usable_path(p));
    }

    /// Connectivity extends along one more usable link.
    pub proof fn lemma_connected_step(self, a: AgentId, b: AgentId, c: AgentId)
        requires
            self.spec_connected(a, b),
            self.spec_usable(b, c),
        ensures
            self.spec_connected(a, c),
    {
        let p = choose|p: Seq<AgentId>|
            #[trigger] self.is_usable_path(p) && p.first() == a && p.last() == b;
        let q = p.push(c);
        assert forall|k: int| 0 <= k < q.len() - 1 implies #[trigger] self.spec_usable(
            q[k],
            q[k + 1],
        ) by {
            if k < p.len() - 1 {
                assert(q[k] == p[k] && q[k + 1] == p[k + 1]);
            } else {
                assert(q[k] == b && q[k + 1] == c);
            }
        }
        assert(self.is_usable_path(q) && q.first() == a && q.last() == c);
    }

    /// A set of agents that contains the head of a usable path and is
    /// closed under usable links contains the whole path.
    proof fn lemma_path_stays_in_closed(self, visited: Seq<AgentId>, p: Seq<AgentId>)
        requires
            self.is_usable_path(p),
            visited.contains(p.first()),
            forall|v: AgentId, d: AgentId|
                visited.contains(v) && #[trigger] self.spec_usable(v, d)
                    ==> visited.contains(d),
        ensures
            visited.contains(p.last()),
        decreases p.len(),
    {
        if p.len() > 1 {
            let k0: int = 0;
            assert(self.spec_usable(p[k0], p[k0 + 1]));
            assert(visited.contains(p[1]));
            let q = p.drop_first();
            assert forall|k: int| 0 <= k < q.len() - 1 implies #[trigger] self.spec_usable(
                q[k],
                q[k + 1],
            ) by {
                assert(q[k] == p[k + 1] && q[k + 1] == p[k + 2]);
            }
            assert(q.first() == p[1] && q.last() == p.last());
            self.lemma_path_stays_in_closed(visited, q);
        }
    }

    /// Whether every usable link out of an agent in `visited` that is no
    /// longer waiting in `queue` stays inside `visited`.
    spec fn bfs_closed(self, visited: Seq<AgentId>, queue: Seq<AgentId>) -> bool {
        forall|v: AgentId, d: AgentId|
            visited.contains(v) && !queue.contains(v) && #[trigger] self.spec_usable(v, d)
                ==> visited.contains(d)
    }

    /// Whether two agents can communicate over some chain of usable
    /// links, by breadth-first search.  An agent is trivially connected
    /// to itself; the directionality of links is respected.
    pub fn is_connected(&self, source: AgentId, destination: AgentId) -> (r: bool)
        requires
            self.wf(),
        ensures
            r == self.spec_connected(source, destination),
    {
        proof {
            self.lemma_connected_self(source);
        }
        if source == destination {
            return true;
        }
        let mut visited: Vec<AgentId> = Vec::new();
        let mut queue: Vec<AgentId> = Vec::new();
        visited.push(source);
        queue.push(source);
        let ghost mut used: Set<int> = Set::empty();
        proof {
            vstd::set_lib::lemma_int_range(0, self.links@.len() as int);
        }
        while queue.len() > 0
            invariant
                self.wf(),
                source != destination,
                visited@.len() >= 1,
                visited@[0] == source,
                forall|k1: int, k2: int|
                    0 <= k1 < k2 < visited@.len() ==> visited@[k1] != visited@[k2],
                forall|k1: int, k2: int|
                    0 <= k1 < k2 < queue@.len() ==> queue@[k1] != queue@[k2],
                forall|k: int|
                    0 <= k < queue@.len() ==> visited@.contains(#[trigger] queue@[k]),
                forall|k: int|
                    0 <= k < visited@.len() ==> self.spec_connected(
                        source,
                        #[trigger] visited@[k],
                    ),
                visited@.contains(destination) ==> queue@.contains(destination),
                self.bfs_closed(visited@, queue@),
                used.finite(),
                used.subset_of(vstd::set_lib::set_int_range(0, self.links@.len() as int)),
                forall|j: int|
                    used.contains(j) ==> visited@.contains(
                        #[trigger] self.links@[j].destination,
                    ),
                visited@.len() == 1 + used.len(),
                visited@.len() <= self.links@.len() + 1,
            decreases 2 * (self.links@.len() + 1 - visited@.len()) + queue@.len(),
        {
            let ghost queue0 = queue@;
            let current = queue.remove(0);
            proof {
                assert(current == queue0[0]);
                assert(visited@.contains(queue0[0]));
                assert(queue0.contains(current));
                assert forall|x: AgentId| queue@.contains(x) implies queue0.contains(x) by {
                    let k = choose|k: int| 0 <= k < queue@.len() && queue@[k] == x;
                    assert(queue0[k + 1] == x);
                }
                assert forall|x: AgentId|
                    queue0.contains(x) && x != current implies queue@.contains(x) by {
                    let k = choose|k: int| 0 <= k < queue0.len() && queue0[k] == x;
                    assert(k != 0);
                    assert(queue@[k - 1] == x);
                }
                let ck = choose|k: int| 0 <= k < visited@.len() && visited@[k] == current;
                assert(self.spec_connected(source, current));
            }
            if current == destination {
                return true;
            }
            let neighbors = self.get_neighbors(current);
            let ghost visited_at_pop = visited@;
            let ghost queue_at_pop = queue@;
            let mut ni: usize = 0;
            while ni < neighbors.len()
                invariant
                    self.wf(),
                    source != destination,
                    current != destination,
                    ni <= neighbors@.len(),
                    forall|d: AgentId|
                        #[trigger] neighbors@.contains(d) == self.spec_usable(current, d),
                    visited@.len() >= 1,
                    visited@[0] == source,
                    visited@.contains(current),
                    queue@.len() - queue_at_pop.len() == visited@.len() - visited_at_pop.len(),
                    queue@.len() >= queue_at_pop.len(),
                    self.spec_connected(source, current),
                    forall|k1: int, k2: int|
                        0 <= k1 < k2 < visited@.len() ==> visited@[k1] != visited@[k2],
                    forall|k1: int, k2: int|
                        0 <= k1 < k2 < queue@.len() ==> queue@[k1] != queue@[k2],
                    !queue@.contains(current),
                    forall|k: int|
                        0 <= k < queue@.len() ==> visited@.contains(#[trigger] queue@[k]),
                    forall|k: int|
                        0 <= k < visited@.len() ==> self.spec_connected(
                            source,
                            #[trigger] visited@[k],
                        ),
                    visited@.contains(destination) ==> queue@.contains(destination),
                    forall|x: AgentId|
                        visited_at_pop.contains(x) ==> visited@.contains(x),
                    forall|x: AgentId|
                        visited@.contains(x) ==> visited_at_pop.contains(x)
                            || queue@.contains(x),
                    forall|v: AgentId, d: AgentId|
                        visited_at_pop.contains(v) && !queue@.contains(v) && v != current
                            && #[trigger] self.spec_usable(v, d) ==> visited@.contains(d),
                    forall|m: int|
                        0 <= m < ni ==> visited@.contains(#[trigger] neighbors@[m]),
                    used.finite(),
                    used.subset_of(vstd::set_lib::set_int_range(0, self.links@.len() as int)),
                    forall|j: int|
                        used.contains(j) ==> visited@.contains(
                            #[trigger] self.links@[j].destination,
                        ),
                    visited@.len() == 1 + used.len(),
                    visited@.len() <= self.links@.len() + 1,
                decreases neighbors@.len() - ni,
            {
                let nb = neighbors[ni];
                proof {
                    assert(neighbors@.contains(nb));
                    assert(self.spec_usable(current, nb));
                }
                if !vec_contains(&visited, nb) {
                    let ghost visited0 = visited@;
                    let ghost queue1 = queue@;
                    proof {
                        let j = choose|j: int|
                            0 <= j < self.links@.len() && (#[trigger] self.links@[j]).source
                                == current && self.links@[j].destination == nb;
                        assert(!used.contains(j));
                        used = used.insert(j);
                        vstd::set_lib::lemma_int_range(0, self.links@.len() as int);
                        vstd::set_lib::lemma_len_subset(
                            used,
                            vstd::set_lib::set_int_range(0, self.links@.len() as int),
                        );
                        self.lemma_connected_step(source, current, nb);
                    }
                    visited.push(nb);
                    queue.push(nb);
                    proof {
                        assert(visited@[visited@.len() - 1] == nb);
                        assert(queue@[queue@.len() - 1] == nb);
                        assert forall|x: AgentId|
                            visited0.contains(x) implies visited@.contains(x) by {
                            let k = choose|k: int| 0 <= k < visited0.len() && visited0[k] == x;
                            assert(visited@[k] == x);
                        }
                        assert forall|x: AgentId|
                            queue1.contains(x) implies queue@.contains(x) by {
                            let k = choose|k: int| 0 <= k < queue1.len() && queue1[k] == x;
                            assert(queue@[k] == x);
                        }
                        assert forall|x: AgentId|
                            visited@.contains(x) implies visited0.contains(x) || x == nb by {
                            let k = choose|k: int| 0 <= k < visited@.len() && visited@[k] == x;
                            if k < visited0.len() {
                                assert(visited0[k] == x);
                            }
                        }
                        assert forall|x: AgentId|
                            queue@.contains(x) implies queue1.contains(x) || x == nb by {
                            let k = choose|k: int| 0 <= k < queue@.len() && queue@[k] == x;
                            if k < queue1.len() {
                                assert(queue1[k] == x);
                            }
                        }
                        assert(visited@.len() == 1 + used.len());
                    }
                }
                ni += 1;
            }
            proof {
                assert forall|v: AgentId, d: AgentId|
                    visited@.contains(v) && !queue@.contains(v) && #[trigger] self.spec_usable(
                        v,
                        d,
                    ) implies visited@.contains(d) by {
                    if v == current {
                        assert(neighbors@.contains(d));
                        let m = choose|m: int|
                            0 <= m < neighbors@.len() && neighbors@[m] == d;
                        assert(visited@.contains(neighbors@[m]));
                    } else if visited_at_pop.contains(v) {
                    } else {
                        assert(queue@.contains(v));
                    }
                }
            }
        }
        proof {
            if self.spec_connected(source, destination) {
                let p = choose|p: Seq<AgentId>|
                    #[trigger] self.is_usable_path(p) && p.first() == source && p.last()
                        == destination;
                assert(visited@.contains(source));
                self.lemma_path_stays_in_closed(visited@, p);
                assert(visited@.contains(destination));
                assert(false);
            }
        }
        false
    }

    /// Number of connected ordered pairs `(a, ids[m])`, `a != ids[m]`,
    /// over the first `j` entries of `ids`.
    pub open spec fn row_count(self, ids: Seq<AgentId>, a: AgentId, j: int) -> int
        decreases j,
    {
        if j <= 0 {
            0
        } else {
            self.row_count(ids, a, j - 1) + if a != ids[j - 1] && self.spec_connected(
                a,
                ids[j - 1],
            ) {
                1int
            } else {
                0int
            }
        }
    }

    /// Number of connected ordered pairs with both ends in `ids`, the
    /// first end among the first `i` entries.
    pub open spec fn pair_count(self, ids: Seq<AgentId>, i: int) -> int
        decreases i,
    {
        if i <= 0 {
            0
        } else {
            self.pair_count(ids, i - 1) + self.row_count(ids, ids[i - 1], ids.len() as int)
        }
    }

    proof fn lemma_row_count_bound(self, ids: Seq<AgentId>, a: AgentId, j: int)
        requires
            j >= 0,
        ensures
            0 <= self.row_count(ids, a, j) <= j,
        decreases j,
    {
        if j > 0 {
            self.lemma_row_count_bound(ids, a, j - 1);
        }
    }

    proof fn lemma_row_count_distinct(self, ids: Seq<AgentId>, idx: int, j: int)
        requires
            0 <= idx < ids.len(),
            0 <= j <= ids.len(),
            forall|k1: int, k2: int| 0 <= k1 < k2 < ids.len() ==> ids[k1] != ids[k2],
        ensures
            self.row_count(ids, ids[idx], j) <= if idx < j {
                j - 1
            } else {
                j
            },
        decreases j,
    {
        if j > 0 {
            self.lemma_row_count_distinct(ids, idx, j - 1);
            if idx == j - 1 {
                assert(ids[idx] == ids[j - 1]);
            }
        }
    }

    proof fn lemma_pair_count_bound(self, ids: Seq<AgentId>, i: int)
        requires
            0 <= i <= ids.len(),
            ids.len() >= 1,
            forall|k1: int, k2: int| 0 <= k1 < k2 < ids.len() ==> ids[k1] != ids[k2],
        ensures
            0 <= self.pair_count(ids, i) <= i * (ids.len() - 1),
        decreases i,
    {
        if i > 0 {
            self.lemma_pair_count_bound(ids, i - 1);
            self.lemma_row_count_distinct(ids, i - 1, ids.len() as int);
            self.lemma_row_count_bound(ids, ids[i - 1], ids.len() as int);
            assert((i - 1) * (ids.len() - 1) + (ids.len() - 1) == i * (ids.len() - 1))
                by (nonlinear_arith);
        }
    }

    /// Fraction of ordered pairs of distinct registered agents that are
    /// connected, in parts per million; a graph with fewer than two
    /// agents counts as fully connected.
    pub fn compute_connectivity(&self) -> (r: u64)
        requires
            self.wf(),
            self.agents@.len() < 0x1_0000_0000,
        ensures
            self.agent_ids().len() < 2 ==> r == 1_000_000,
            self.agent_ids().len() >= 2 ==> r == self.pair_count(
                self.agent_ids(),
                self.agent_ids().len() as int,
            ) * 1_000_000 / (self.agent_ids().len() * (self.agent_ids().len() - 1)),
            r <= 1_000_000,
    {
        let ghost ids = self.agent_ids();
        proof {
            self.lemma_agent_ids_index();
            assert forall|k1: int, k2: int|
                0 <= k1 < k2 < ids.len() implies ids[k1] != ids[k2] by {
                assert(ids[k1] == self.agents@[k1].id && ids[k2] == self.agents@[k2].id);
            }
        }
        let n = self.agent_count();
        if n < 2 {
            return 1_000_000;
        }
        let agents = self.get_agents();
        let mut connected_pairs: u64 = 0;
        let mut i: usize = 0;
        while i < n
            invariant
                self.wf(),
                ids == self.agent_ids(),
                agents@ == ids,
                n == ids.len(),
                2 <= n < 0x1_0000_0000,
                forall|k1: int, k2: int| 0 <= k1 < k2 < ids.len() ==> ids[k1] != ids[k2],
                i <= n,
                connected_pairs == self.pair_count(ids, i as int),
                connected_pairs <= (i as int) * ((n as int) - 1),
            decreases n - i,
        {
            let mut j: usize = 0;
            while j < n
                invariant
                    self.wf(),
                    ids == self.agent_ids(),
                    agents@ == ids,
                    n == ids.len(),
                    2 <= n < 0x1_0000_0000,
                    forall|k1: int, k2: int| 0 <= k1 < k2 < ids.len() ==> ids[k1] != ids[k2],
                    i < n,
                    j <= n,
                    connected_pairs == self.pair_count(ids, i as int) + self.row_count(
                        ids,
                        ids[i as int],
                        j as int,
                    ),
                    connected_pairs <= (i as int) * ((n as int) - 1) + (j as int),
                decreases n - j,
            {
                if i != j && self.is_connected(agents[i], agents[j]) {
                    proof {
                        assert((i as int) * ((n as int) - 1) + (j as int) + 1
                            < 0x1_0000_0000 * 0x1_0000_0000) by (nonlinear_arith)
                            requires 0 <= i < n, 0 <= j < n, n < 0x1_0000_0000;
                    }
                    connected_pairs += 1;
                } else {
                    proof {
                        if i != j && agents@[i as int] == agents@[j as int] {
                            assert(false);
                        }
                    }
                }
                j += 1;
            }
            proof {
                self.lemma_pair_count_bound(ids, i as int + 1);
                self.lemma_row_count_distinct(ids, i as int, n as int);
                assert((i as int) * ((n as int) - 1) + ((n as int) - 1) == (i as int + 1)
                    * ((n as int) - 1)) by (nonlinear_arith);
            }
            i += 1;
        }
        proof {
            assert((n as int) * ((n as int) - 1) < 0x1_0000_0000 * 0x1_0000_0000)
                by (nonlinear_arith)
                requires 2 <= n < 0x1_0000_0000;
            assert((n as int) * ((n as int) - 1) >= 2) by (nonlinear_arith)
                requires n >= 2;
        }
        let total: u64 = (n as u64) * ((n - 1) as u64);
        proof {
            self.lemma_pair_count_bound(ids, n as int);
            assert(connected_pairs as int <= (n as int) * ((n as int) - 1)) by (nonlinear_arith)
                requires
                    connected_pairs as int <= (n as int) * ((n as int) - 1),
            ;
            vstd::arithmetic::div_mod::lemma_div_is_ordered(
                connected_pairs as int * 1_000_000,
                (n as int) * ((n as int) - 1) * 1_000_000,
                (n as int) * ((n as int) - 1),
            );
            assert((n as int) * ((n as int) - 1) * 1_000_000 / ((n as int) * ((n as int) - 1))
                == 1_000_000) by (nonlinear_arith)
                requires n >= 2;
        }
        let frac: u128 = (connected_pairs as u128) * 1_000_000 / (total as u128);
        frac as u64
    }

    /// Index of a registered agent in the agent list.
    pub open spec fn agent_index(self, a: AgentId) -> int {
        agent_index_of(self.agents@, a)
    }

    proof fn lemma_agent_index(self, a: AgentId)
        requires
            self.wf(),
            self.spec_has_agent(a),
        ensures
            0 <= self.agent_index(a) < self.agents@.len(),
            self.agents@[self.agent_index(a)].id == a,
            forall|i: int|
                0 <= i < self.agents@.len() && (#[trigger] self.agents@[i]).id == a
                    ==> i == self.agent_index(a),
    {
        self.lemma_agent_ids_index();
        let k = choose|k: int|
            0 <= k < self.agent_ids().len() && self.agent_ids()[k] == a;
        assert(self.agents@[k].id == a);
    }

    /// A link usable for routing: it clears the quality thresholds and
    /// its score is positive, so its routing cost `1/score` is finite.
    pub open spec fn spec_routable_edge(self, s: AgentId, d: AgentId) -> bool {
        &&& self.spec_usable(s, d)
        &&& score_spec(
            self.spec_link(s, d).quality.snr_mdb as int,
            self.spec_link(s, d).quality.packet_loss_ppm as int,
            self.spec_link(s, d).quality.latency_ms as int,
        ) > 0
    }

    /// A chain of routable links visiting registered agents only.
    pub open spec fn is_routable_path(self, p: Seq<AgentId>) -> bool {
        &&& p.len() >= 1
        &&& forall|k: int| 0 <= k < p.len() ==> self.spec_has_agent(#[trigger] p[k])
        &&& forall|k: int|
            0 <= k < p.len() - 1 ==> #[trigger] self.spec_routable_edge(p[k], p[k + 1])
    }

    /// Whether a chain of routable links leads from `a` to `b` through
    /// registered agents.
    pub open spec fn spec_routable(self, a: AgentId, b: AgentId) -> bool {
        exists|p: Seq<AgentId>|
            #[trigger] self.is_routable_path(p) && p.first() == a && p.last() == b
    }

    /// A finite-distance set that contains the head of a routable path
    /// and is closed under routable links contains the whole path.
    proof fn lemma_routable_path_in_finite(self, dist: Seq<u128>, p: Seq<AgentId>)
        requires
            self.wf(),
            dist.len() == self.agents@.len(),
            self.is_routable_path(p),
            dist[self.agent_index(p.first())] < u128::MAX,
            forall|i: int, d: AgentId|
                0 <= i < dist.len() && dist[i] < u128::MAX && #[trigger] self.spec_routable_edge(
                    self.agents@[i].id,
                    d,
                ) && self.spec_has_agent(d) ==> dist[self.agent_index(d)] < u128::MAX,
        ensures
            dist[self.agent_index(p.last())] < u128::MAX,
        decreases p.len(),
    {
        if p.len() > 1 {
            let k0: int = 0;
            assert(self.spec_routable_edge(p[k0], p[k0 + 1]));
            assert(self.spec_has_agent(p[k0]) && self.spec_has_agent(p[k0 + 1]));
            self.lemma_agent_index(p[0]);
            let i0 = self.agent_index(p[0]);
            assert(self.agents@[i0].id == p[0]);
            assert(dist[self.agent_index(p[1])] < u128::MAX);
            let q = p.drop_first();
            assert forall|k: int| 0 <= k < q.len() - 1 implies #[trigger] self.spec_routable_edge(
                q[k],
                q[k + 1],
            ) by {
                assert(q[k] == p[k + 1] && q[k + 1] == p[k + 2]);
            }
            assert forall|k: int| 0 <= k < q.len() implies self.spec_has_agent(
                #[trigger] q[k],
            ) by {
                assert(q[k] == p[k + 1]);
            }
            assert(q.first() == p[1] && q.last() == p.last());
            self.lemma_routable_path_in_finite(dist, q);
        }
    }

    /// Routing cost of one link: the reciprocal of its score, on the
    /// scale where a perfect score of one costs `10^6` millionths.
    /// Meaningful for routable links, whose score is positive.
    pub open spec fn edge_cost_spec(self, u: AgentId, v: AgentId) -> int {
        let s = score_spec(
            self.spec_link(u, v).quality.snr_mdb as int,
            self.spec_link(u, v).quality.packet_loss_ppm as int,
            self.spec_link(u, v).quality.latency_ms as int,
        );
        if s > 0 {
            1_000_000_000_000int / s
        } else {
            0
        }
    }

    /// Total routing cost of a path: the sum of its edge costs.
    pub open spec fn path_cost_spec(self, p: Seq<AgentId>) -> int
        decreases p.len(),
    {
        if p.len() <= 1 {
            0
        } else {
            self.edge_cost_spec(p[0], p[1]) + self.path_cost_spec(p.drop_first())
        }
    }

    /// One link costs between zero and the whole-score reciprocal.
    proof fn lemma_edge_cost_bounds(self, u: AgentId, v: AgentId)
        ensures
            0 <= self.edge_cost_spec(u, v) <= 1_000_000_000_000,
    {
        let s = score_spec(
            self.spec_link(u, v).quality.snr_mdb as int,
            self.spec_link(u, v).quality.packet_loss_ppm as int,
            self.spec_link(u, v).quality.latency_ms as int,
        );
        lemma_score_in_range(
            self.spec_link(u, v).quality.snr_mdb as int,
            self.spec_link(u, v).quality.packet_loss_ppm as int,
            self.spec_link(u, v).quality.latency_ms as int,
        );
        if s > 0 {
            vstd::arithmetic::div_mod::lemma_div_pos_is_pos(1_000_000_000_000, s);
            vstd::arithmetic::div_mod::lemma_div_is_ordered_by_denominator(
                1_000_000_000_000,
                1,
                s,
            );
        }
    }

    /// A path costs at least nothing.
    proof fn lemma_path_cost_nonneg(self, p: Seq<AgentId>)
        ensures
            self.path_cost_spec(p) >= 0,
        decreases p.len(),
    {
        if p.len() > 1 {
            self.lemma_edge_cost_bounds(p[0], p[1]);
            self.lemma_path_cost_nonneg(p.drop_first());
        }
    }

    /// Appending one more hop adds exactly that link's cost.
    proof fn lemma_path_cost_push(self, p: Seq<AgentId>, v: AgentId)
        requires
            p.len() >= 1,
        ensures
            self.path_cost_spec(p.push(v)) == self.path_cost_spec(p) + self.edge_cost_spec(
                p.last(),
                v,
            ),
        decreases p.len(),
    {
        if p.len() == 1 {
            assert(p.push(v).drop_first() =~= seq![v]);
            assert(p.push(v).drop_first() == seq![v]);
            assert(self.path_cost_spec(seq![v]) == 0);
            assert(p.push(v)[0] == p[0] && p.push(v)[1] == v);
        } else {
            assert(p.push(v).drop_first() =~= p.drop_first().push(v));
            assert(p.push(v).drop_first() == p.drop_first().push(v));
            self.lemma_path_cost_push(p.drop_first(), v);
            assert(p.drop_first().last() == p.last());
            assert(p.push(v)[0] == p[0] && p.push(v)[1] == p[1]);
            assert(p.drop_first()[0] == p[1]);
        }
    }

    /// Against a frontier where every relaxed distance bounds the true
    /// one, any routable path from a head bounded by `head` to a
    /// still-unvisited agent costs at least the minimum unvisited
    /// distance.
    proof fn lemma_dijkstra_lower_bound(
        self,
        dist: Seq<u128>,
        unvisited: Seq<bool>,
        best_dist: u128,
        bound: int,
        head: int,
        p: Seq<AgentId>,
    )
        requires
            self.wf(),
            dist.len() == self.agents@.len(),
            unvisited.len() == dist.len(),
            self.is_routable_path(p),
            forall|j: int| 0 <= j < dist.len() && #[trigger] unvisited[j] ==> dist[j] >= best_dist,
            forall|i: int, d: AgentId|
                0 <= i < dist.len() && !unvisited[i] && #[trigger] self.spec_routable_edge(
                    self.agents@[i].id,
                    d,
                ) && self.spec_has_agent(d) ==> dist[self.agent_index(d)] as int <= dist[i]
                    + self.edge_cost_spec(self.agents@[i].id, d),
            forall|i: int|
                0 <= i < dist.len() && (#[trigger] dist[i]) < u128::MAX ==> dist[i] <= bound,
            bound >= 0,
            bound + 1_000_000_000_000 < u128::MAX,
            dist[self.agent_index(p.first())] < u128::MAX,
            dist[self.agent_index(p.first())] as int <= head,
        ensures
            unvisited[self.agent_index(p.last())] ==> head + self.path_cost_spec(p)
                >= best_dist as int,
        decreases p.len(),
    {
        let k0: int = 0;
        assert(self.spec_has_agent(p[k0]));
        self.lemma_agent_index(p[0]);
        let iu = self.agent_index(p[0]);
        if p.len() == 1 {
            self.lemma_path_cost_nonneg(p);
        } else {
            assert(self.spec_routable_edge(p[k0], p[k0 + 1]));
            assert(self.spec_has_agent(p[k0 + 1]));
            if unvisited[iu] {
                assert(dist[iu] >= best_dist);
                self.lemma_path_cost_nonneg(p);
                self.lemma_edge_cost_bounds(p[0], p[1]);
            } else {
                let ec = self.edge_cost_spec(p[0], p[1]);
                self.lemma_edge_cost_bounds(p[0], p[1]);
                assert(dist[self.agent_index(p[1])] as int <= dist[iu] + ec);
                assert(dist[iu] <= bound);
                assert(dist[self.agent_index(p[1])] < u128::MAX);
                let q = p.drop_first();
                assert forall|k: int|
                    0 <= k < q.len() - 1 implies #[trigger] self.spec_routable_edge(
                    q[k],
                    q[k + 1],
                ) by {
                    assert(q[k] == p[k + 1] && q[k + 1] == p[k + 2]);
                }
                assert forall|k: int| 0 <= k < q.len() implies self.spec_has_agent(
                    #[trigger] q[k],
                ) by {
                    assert(q[k] == p[k + 1]);
                }
                assert(q.first() == p[1] && q.last() == p.last());
                self.lemma_dijkstra_lower_bound(dist, unvisited, best_dist, bound, head + ec, q);
            }
        }
    }

    /// Cheapest route between two agents by Dijkstra's algorithm over
    /// usable links, with edge cost `1/score` (a zero-score link is
    /// unusable for routing).  Ties between equal-distance candidates are
    /// broken deterministically by list position.
    ///
    /// Returns the agent sequence from `source` to `destination`
    /// inclusive; `None` exactly when no routable chain exists.  The
    /// returned sequence visits no agent twice, and no routable chain
    /// between the two endpoints costs less.
    pub fn find_shortest_path(&self, source: AgentId, destination: AgentId) -> (r: Option<
        Vec<AgentId>,
    >)
        requires
            self.wf(),
        ensures
            source == destination ==> r.is_some() && r.unwrap()@ =~= seq![source],
            r.is_some() ==> r.unwrap()@.len() >= 1 && r.unwrap()@.first() == source
                && r.unwrap()@.last() == destination,
            source != destination && r.is_some() ==> self.is_routable_path(r.unwrap()@),
            source != destination ==> r.is_some() == self.spec_routable(source, destination),
            r.is_some() ==> forall|t1: int, t2: int|
                0 <= t1 < t2 < r.unwrap()@.len() ==> r.unwrap()@[t1] != r.unwrap()@[t2],
            source != destination && r.is_some() ==> forall|p: Seq<AgentId>|
                self.is_routable_path(p) && p.first() == source && p.last() == destination
                    ==> self.path_cost_spec(r.unwrap()@) <= #[trigger] self.path_cost_spec(p),
    {
        if source == destination {
            let p = vec![source];
            return Some(p);
        }
        let n = self.agents.len();
        let src_idx = match self.find_agent(source) {
            Some(i) => i,
            None => {
                proof {
                    if self.spec_routable(source, destination) {
                        let p = choose|p: Seq<AgentId>|
                            #[trigger] self.is_routable_path(p) && p.first() == source
                                && p.last() == destination;
                        let k0: int = 0;
                        assert(self.spec_has_agent(p[k0]));
                    }
                }
                return None;
            },
        };
        let dst_idx = match self.find_agent(destination) {
            Some(i) => i,
            None => {
                proof {
                    if self.spec_routable(source, destination) {
                        let p = choose|p: Seq<AgentId>|
                            #[trigger] self.is_routable_path(p) && p.first() == source
                                && p.last() == destination;
                        assert(self.spec_has_agent(p[p.len() - 1]));
                    }
                }
                return None;
            },
        };
        let ghost ids = self.agent_ids();
        proof {
            self.lemma_agent_ids_index();
        }
        let mut dist: Vec<u128> = Vec::new();
        let mut paths: Vec<Vec<AgentId>> = Vec::new();
        let mut unvisited: Vec<bool> = Vec::new();
        let mut k: usize = 0;
        while k < n
            invariant
                k <= n,
                dist@.len() == k,
                paths@.len() == k,
                unvisited@.len() == k,
                forall|m: int| 0 <= m < k ==> dist@[m] == u128::MAX,
                forall|m: int| 0 <= m < k ==> unvisited@[m],
            decreases n - k,
        {
            dist.push(u128::MAX);
            paths.push(Vec::new());
            unvisited.push(true);
            k += 1;
        }
        dist[src_idx] = 0;
        let start_path = vec![source];
        paths[src_idx] = start_path;
        let mut remaining = n;
        proof {
            lemma_count_true_all(unvisited@, n as int);
            assert(paths@[src_idx as int]@.len() == 1);
            assert(self.path_cost_spec(paths@[src_idx as int]@) == 0);
        }
        while remaining > 0
            invariant
                self.wf(),
                source != destination,
                n == self.agents@.len(),
                ids == self.agent_ids(),
                src_idx < n,
                dst_idx < n,
                self.agents@[src_idx as int].id == source,
                self.agents@[dst_idx as int].id == destination,
                dist@.len() == n,
                paths@.len() == n,
                unvisited@.len() == n,
                remaining as int == count_true(unvisited@, n as int),
                unvisited@[dst_idx as int],
                dist@[src_idx as int] == 0,
                forall|m: int| 0 <= m < n && !(#[trigger] unvisited@[m]) ==> dist@[m] < u128::MAX,
                forall|m: int|
                    0 <= m < n && #[trigger] dist@[m] < u128::MAX ==> dist@[m] <= (n as int
                        - remaining as int) * 1_000_000_000_000,
                forall|m: int|
                    0 <= m < n && #[trigger] dist@[m] < u128::MAX ==> self.is_routable_path(
                        paths@[m]@,
                    ) && paths@[m]@.first() == source && paths@[m]@.last()
                        == self.agents@[m].id,
                forall|m: int|
                    0 <= m < n && #[trigger] dist@[m] < u128::MAX ==> self.path_cost_spec(
                        paths@[m]@,
                    ) == dist@[m],
                forall|i: int, j: int|
                    #![trigger unvisited@[i], unvisited@[j]]
                    0 <= i < n && 0 <= j < n && !unvisited@[i] && unvisited@[j] ==> dist@[i]
                        <= dist@[j],
                forall|i: int, d: AgentId|
                    0 <= i < n && !unvisited@[i] && dist@[i] < u128::MAX
                        && #[trigger] self.spec_routable_edge(self.agents@[i].id, d)
                        && self.spec_has_agent(d) ==> dist@[self.agent_index(d)] < u128::MAX,
                forall|i: int, d: AgentId|
                    0 <= i < n && !unvisited@[i] && #[trigger] self.spec_routable_edge(
                        self.agents@[i].id,
                        d,
                    ) && self.spec_has_agent(d) ==> dist@[self.agent_index(d)] as int
                        <= dist@[i] + self.edge_cost_spec(self.agents@[i].id, d),
                forall|m: int, t: int|
                    #![trigger paths@[m]@[t]]
                    0 <= m < n && dist@[m] < u128::MAX && 0 <= t < paths@[m]@.len() - 1
                        ==> 0 <= self.agent_index(paths@[m]@[t]) < n && !unvisited@[
                        self.agent_index(paths@[m]@[t])],
                forall|m: int, t1: int, t2: int|
                    #![trigger paths@[m]@[t1], paths@[m]@[t2]]
                    0 <= m < n && dist@[m] < u128::MAX && 0 <= t1 < t2 < paths@[m]@.len()
                        ==> paths@[m]@[t1] != paths@[m]@[t2],
            decreases remaining,
        {
            let mut best: usize = n;
            let mut best_dist: u128 = u128::MAX;
            let mut m: usize = 0;
            while m < n
                invariant
                    n == dist@.len(),
                    n == unvisited@.len(),
                    m <= n,
                    best == n || (best < n && unvisited@[best as int] && dist@[best as int]
                        == best_dist),
                    best == n ==> forall|t: int| 0 <= t < m ==> !unvisited@[t],
                    best == n ==> best_dist == u128::MAX,
                    forall|t: int|
                        0 <= t < m && #[trigger] unvisited@[t] ==> dist@[t] >= best_dist,
                decreases n - m,
            {
                if unvisited[m] && (best == n || dist[m] < best_dist) {
                    best = m;
                    best_dist = dist[m];
                }
                m += 1;
            }
            if best == n {
                proof {
                    lemma_count_true_none(unvisited@, n as int);
                    assert(false);
                }
                return None;
            }
            if best_dist == u128::MAX {
                proof {
                    assert(dist@[dst_idx as int] == u128::MAX);
                    if self.spec_routable(source, destination) {
                        let p = choose|p: Seq<AgentId>|
                            #[trigger] self.is_routable_path(p) && p.first() == source
                                && p.last() == destination;
                        assert forall|i: int, d: AgentId|
                            0 <= i < dist@.len() && dist@[i] < u128::MAX
                                && #[trigger] self.spec_routable_edge(self.agents@[i].id, d)
                                && self.spec_has_agent(d) implies dist@[self.agent_index(d)]
                                < u128::MAX by {
                            assert(!unvisited@[i]);
                        }
                        self.lemma_agent_index(source);
                        assert(self.agent_index(source) == src_idx as int);
                        self.lemma_routable_path_in_finite(dist@, p);
                        self.lemma_agent_index(destination);
                        assert(self.agent_index(destination) == dst_idx as int);
                        assert(false);
                    }
                }
                return None;
            }
            let cur_id = self.agents[best].id;
            if cur_id == destination {
                let out = copy_ids(&paths[best]);
                proof {
                    assert(dist@[best as int] < u128::MAX);
                    assert(self.is_routable_path(out@));
                    assert(self.path_cost_spec(out@) == dist@[best as int]);
                    self.lemma_agent_index(source);
                    assert(self.agent_index(source) == src_idx as int);
                    self.lemma_agent_index(destination);
                    assert(self.agent_index(destination) == dst_idx as int);
                    let bound: int = (n as int - remaining as int) * 1_000_000_000_000;
                    assert(bound >= 0);
                    assert((n as int) * 1_000_000_000_000 + 1_000_000_000_000 < u128::MAX)
                        by (nonlinear_arith)
                        requires (n as int) < 18_446_744_073_709_551_616;
                    assert((n as int - remaining as int) * 1_000_000_000_000 <= (n as int)
                        * 1_000_000_000_000) by (nonlinear_arith)
                        requires 0 <= (n as int - remaining as int) <= (n as int);
                    assert forall|p: Seq<AgentId>|
                        self.is_routable_path(p) && p.first() == source && p.last()
                            == destination implies self.path_cost_spec(out@)
                            <= #[trigger] self.path_cost_spec(p) by {
                        self.lemma_dijkstra_lower_bound(
                            dist@,
                            unvisited@,
                            best_dist,
                            bound,
                            0,
                            p,
                        );
                        assert(unvisited@[self.agent_index(p.last())]);
                    }
                    assert forall|t1: int, t2: int|
                        0 <= t1 < t2 < out@.len() implies out@[t1] != out@[t2] by {
                        assert(paths@[best as int]@[t1] != paths@[best as int]@[t2]);
                    }
                }
                return Some(out);
            }
            let ghost unvisited0 = unvisited@;
            unvisited[best] = false;
            remaining = remaining - 1;
            proof {
                lemma_count_true_update_false(unvisited0, best as int, n as int);
                assert(unvisited@ == unvisited0.update(best as int, false));
            }
            let ghost unvisited1 = unvisited@;
            let ghost dist1 = dist@;
            proof {
                assert forall|i: int| 0 <= i < n && !unvisited@[i] implies dist@[i]
                    <= best_dist by {
                    if i != best as int {
                        assert(!unvisited0[i] && unvisited0[best as int]);
                    }
                }
                assert forall|j: int| 0 <= j < n && unvisited@[j] implies dist@[j]
                    >= best_dist by {
                    assert(unvisited0[j]);
                }
            }
            let neighbors = self.get_neighbors(cur_id);
            let ghost settled_bound: int = (n as int - remaining as int) * 1_000_000_000_000;
            let mut ni: usize = 0;
            while ni < neighbors.len()
                invariant
                    self.wf(),
                    source != destination,
                    n == self.agents@.len(),
                    ids == self.agent_ids(),
                    src_idx < n,
                    dst_idx < n,
                    best < n,
                    self.agents@[src_idx as int].id == source,
                    self.agents@[dst_idx as int].id == destination,
                    cur_id == self.agents@[best as int].id,
                    cur_id != destination,
                    ni <= neighbors@.len(),
                    forall|d: AgentId|
                        #[trigger] neighbors@.contains(d) == self.spec_usable(cur_id, d),
                    dist@.len() == n,
                    paths@.len() == n,
                    unvisited@.len() == n,
                    unvisited@ == unvisited1,
                    !unvisited@[best as int],
                    remaining as int == count_true(unvisited@, n as int),
                    remaining < n,
                    unvisited@[dst_idx as int],
                    dist@[src_idx as int] == 0,
                    forall|m: int|
                        0 <= m < n && !(#[trigger] unvisited@[m]) ==> dist@[m] < u128::MAX,
                    dist@[best as int] == best_dist,
                    best_dist < u128::MAX,
                    settled_bound == (n as int - remaining as int) * 1_000_000_000_000,
                    best_dist + 1_000_000_000_000 <= settled_bound,
                    forall|m: int|
                        0 <= m < n && #[trigger] dist@[m] < u128::MAX ==> dist@[m]
                            <= settled_bound,
                    forall|m: int|
                        0 <= m < n && #[trigger] dist@[m] < u128::MAX ==> self.is_routable_path(
                            paths@[m]@,
                        ) && paths@[m]@.first() == source && paths@[m]@.last()
                            == self.agents@[m].id,
                    forall|m: int|
                        0 <= m < n && #[trigger] dist@[m] < u128::MAX ==> self.path_cost_spec(
                            paths@[m]@,
                        ) == dist@[m],
                    forall|i: int| 0 <= i < n && !(#[trigger] unvisited@[i]) ==> dist@[i]
                        <= best_dist,
                    forall|j: int| 0 <= j < n && (#[trigger] unvisited@[j]) ==> dist@[j]
                        >= best_dist,
                    forall|i: int, d: AgentId|
                        0 <= i < n && !unvisited@[i] && i != best as int && dist@[i]
                            < u128::MAX && #[trigger] self.spec_routable_edge(
                            self.agents@[i].id,
                            d,
                        ) && self.spec_has_agent(d) ==> dist@[self.agent_index(d)]
                            < u128::MAX,
                    forall|i: int, d: AgentId|
                        0 <= i < n && !unvisited@[i] && i != best as int
                            && #[trigger] self.spec_routable_edge(self.agents@[i].id, d)
                            && self.spec_has_agent(d) ==> dist@[self.agent_index(d)] as int
                            <= dist@[i] + self.edge_cost_spec(self.agents@[i].id, d),
                    forall|m: int|
                        0 <= m < ni ==> !self.spec_has_agent(#[trigger] neighbors@[m])
                            || !self.spec_routable_edge(cur_id, neighbors@[m])
                            || dist@[self.agent_index(neighbors@[m])] < u128::MAX,
                    forall|m: int|
                        0 <= m < ni ==> !self.spec_has_agent(#[trigger] neighbors@[m])
                            || !self.spec_routable_edge(cur_id, neighbors@[m])
                            || dist@[self.agent_index(neighbors@[m])] as int <= best_dist
                            + self.edge_cost_spec(cur_id, neighbors@[m]),
                    forall|m: int|
                        0 <= m < n && #[trigger] dist1[m] < u128::MAX ==> dist@[m]
                            < u128::MAX,
                    forall|m: int, t: int|
                        #![trigger paths@[m]@[t]]
                        0 <= m < n && dist@[m] < u128::MAX && 0 <= t < paths@[m]@.len() - 1
                            ==> 0 <= self.agent_index(paths@[m]@[t]) < n && !unvisited@[
                            self.agent_index(paths@[m]@[t])],
                    forall|m: int, t1: int, t2: int|
                        #![trigger paths@[m]@[t1], paths@[m]@[t2]]
                        0 <= m < n && dist@[m] < u128::MAX && 0 <= t1 < t2 < paths@[m]@.len()
                            ==> paths@[m]@[t1] != paths@[m]@[t2],
                decreases neighbors@.len() - ni,
            {
                let nb = neighbors[ni];
                proof {
                    assert(neighbors@.contains(nb));
                    assert(self.spec_usable(cur_id, nb));
                }
                match self.find_agent(nb) {
                    Some(nbi) => {
                        proof {
                            self.lemma_agent_ids_index();
                            assert(self.agent_ids()[nbi as int] == nb);
                            self.lemma_agent_index(nb);
                            assert(self.agent_index(nb) == nbi as int);
                        }
                        if unvisited[nbi] {
                            let link = match self.get_link(cur_id, nb) {
                                Some(l) => l,
                                None => {
                                    proof {
                                        assert(false);
                                    }
                                    return None;
                                },
                            };
                            let score = link.quality.compute_score();
                            if score > 0 {
                                let cost: u128 = 1_000_000_000_000u128 / (score as u128);
                                proof {
                                    assert(cost <= 1_000_000_000_000) by {
                                        vstd::arithmetic::div_mod::lemma_div_is_ordered_by_denominator(
                                            1_000_000_000_000,
                                            1,
                                            score as int,
                                        );
                                    }
                                    assert(best_dist + cost <= settled_bound);
                                    assert(self.edge_cost_spec(cur_id, nb) == cost as int);
                                }
                                let alt: u128 = best_dist + cost;
                                if alt < dist[nbi] {
                                    let mut newp = copy_ids(&paths[best]);
                                    newp.push(nb);
                                    let ghost bp = paths@[best as int]@;
                                    proof {
                                        assert(self.spec_routable_edge(cur_id, nb));
                                        assert(newp@.last() == nb);
                                        assert(newp@.first() == source);
                                        assert(dist@[best as int] < u128::MAX);
                                        assert(self.is_routable_path(bp) && bp.first() == source
                                            && bp.last() == cur_id);
                                        assert forall|t: int|
                                            0 <= t < newp@.len() implies self.spec_has_agent(
                                            #[trigger] newp@[t],
                                        ) by {
                                            if t < bp.len() {
                                                assert(newp@[t] == bp[t]);
                                            }
                                        }
                                        assert forall|t: int|
                                            0 <= t < newp@.len() - 1 implies
                                            #[trigger] self.spec_routable_edge(
                                            newp@[t],
                                            newp@[t + 1],
                                        ) by {
                                            if t < bp.len() - 1 {
                                                assert(newp@[t] == bp[t] && newp@[t + 1] == bp[t
                                                    + 1]);
                                            } else {
                                                assert(newp@[t] == cur_id && newp@[t + 1] == nb);
                                            }
                                        }
                                        assert(self.is_routable_path(newp@));
                                        assert(newp@ == bp.push(nb));
                                        self.lemma_path_cost_push(bp, nb);
                                        assert(self.path_cost_spec(bp) == dist@[best as int]);
                                        assert(self.path_cost_spec(newp@) == best_dist as int
                                            + cost as int);
                                        self.lemma_agent_ids_index();
                                        self.lemma_agent_index(cur_id);
                                        assert(self.agent_index(cur_id) == best as int);
                                        assert forall|t: int|
                                            0 <= t < newp@.len() - 1 implies 0
                                                <= self.agent_index(newp@[t]) < n
                                                && !unvisited@[self.agent_index(newp@[t])] by {
                                            if t < bp.len() - 1 {
                                                assert(newp@[t] == bp[t]);
                                                assert(paths@[best as int]@[t] == bp[t]);
                                            } else {
                                                assert(newp@[t] == cur_id);
                                            }
                                        }
                                        assert forall|t1: int, t2: int|
                                            0 <= t1 < t2 < newp@.len() implies newp@[t1]
                                                != newp@[t2] by {
                                            if t2 < bp.len() {
                                                assert(paths@[best as int]@[t1] == bp[t1]);
                                                assert(paths@[best as int]@[t2] == bp[t2]);
                                            } else {
                                                assert(newp@[t2] == nb);
                                                assert(newp@[t1] == bp[t1]);
                                                if t1 < bp.len() - 1 {
                                                    assert(paths@[best as int]@[t1] == bp[t1]);
                                                    if bp[t1] == nb {
                                                        assert(self.agent_index(bp[t1])
                                                            == nbi as int);
                                                        assert(false);
                                                    }
                                                } else {
                                                    if bp[t1] == nb {
                                                        assert(self.agent_index(cur_id)
                                                            == nbi as int);
                                                        assert(false);
                                                    }
                                                }
                                            }
                                        }
                                    }
                                    dist[nbi] = alt;
                                    paths[nbi] = newp;
                                    proof {
                                        assert(dist@[nbi as int] == alt);
                                        assert(paths@[nbi as int]@ == newp@);
                                    }
                                } else {
                                    proof {
                                        assert(dist@[nbi as int] <= alt);
                                    }
                                }
                                proof {
                                    assert(dist@[self.agent_index(nb)] as int <= best_dist
                                        + self.edge_cost_spec(cur_id, nb));
                                }
                            } else {
                                proof {
                                    assert(!self.spec_routable_edge(cur_id, nb));
                                }
                            }
                        } else {
                            proof {
                                self.lemma_edge_cost_bounds(cur_id, nb);
                                assert(dist@[nbi as int] <= best_dist);
                                assert(dist@[self.agent_index(nb)] as int <= best_dist
                                    + self.edge_cost_spec(cur_id, nb));
                            }
                        }
                    },
                    None => {},
                }
                ni += 1;
            }
            proof {
                assert forall|i: int, d: AgentId|
                    0 <= i < n && !unvisited@[i] && dist@[i] < u128::MAX
                        && #[trigger] self.spec_routable_edge(self.agents@[i].id, d)
                        && self.spec_has_agent(d) implies dist@[self.agent_index(d)]
                        < u128::MAX by {
                    if i == best as int {
                        assert(self.spec_usable(cur_id, d));
                        assert(neighbors@.contains(d));
                        let m = choose|m: int|
                            0 <= m < neighbors@.len() && neighbors@[m] == d;
                        assert(!self.spec_has_agent(neighbors@[m]) || !self.spec_routable_edge(
                            cur_id,
                            neighbors@[m],
                        ) || dist@[self.agent_index(neighbors@[m])] < u128::MAX);
                    }
                }
                assert forall|i: int, d: AgentId|
                    0 <= i < n && !unvisited@[i] && #[trigger] self.spec_routable_edge(
                        self.agents@[i].id,
                        d,
                    ) && self.spec_has_agent(d) implies dist@[self.agent_index(d)] as int
                        <= dist@[i] + self.edge_cost_spec(self.agents@[i].id, d) by {
                    if i == best as int {
                        assert(self.spec_usable(cur_id, d));
                        assert(neighbors@.contains(d));
                        let m = choose|m: int|
                            0 <= m < neighbors@.len() && neighbors@[m] == d;
                        assert(!self.spec_has_agent(neighbors@[m]) || !self.spec_routable_edge(
                            cur_id,
                            neighbors@[m],
                        ) || dist@[self.agent_index(neighbors@[m])] as int <= best_dist
                            + self.edge_cost_spec(cur_id, neighbors@[m]));
                    }
                }
                assert forall|i: int, j: int|
                    #![trigger unvisited@[i], unvisited@[j]]
                    0 <= i < n && 0 <= j < n && !unvisited@[i] && unvisited@[j] implies dist@[i]
                        <= dist@[j] by {
                    assert(dist@[i] <= best_dist);
                    assert(dist@[j] >= best_dist);
                }
            }
        }
        proof {
            assert(count_true(unvisited@, n as int) == 0);
            assert(unvisited@[dst_idx as int]);
            lemma_count_true_member(unvisited@, dst_idx as int, n as int);
            assert(false);
        }
        None
    }

    /// The pair-wise parts of `wf`, and the link values, carry over to a
    /// filtered link list.
    proof fn lemma_filtered_links(self, pred: spec_fn(LinkState) -> bool, kept: Seq<LinkState>)
        requires
            self.wf(),
            kept == self.links@.filter(pred),
        ensures
            forall|k1: int, k2: int|
                0 <= k1 < k2 < kept.len() ==> !((#[trigger] kept[k1]).source
                    == (#[trigger] kept[k2]).source && kept[k1].destination
                    == kept[k2].destination),
            forall|k: int|
                0 <= k < kept.len() ==> 0 <= (#[trigger] kept[k]).last_update_ms
                    <= self.current_time_ms,
            forall|k: int| 0 <= k < kept.len() ==> #[trigger] pred(kept[k]),
            forall|s: AgentId, d: AgentId|
                (exists|k: int|
                    0 <= k < kept.len() && (#[trigger] kept[k]).source == s
                        && kept[k].destination == d) ==> #[trigger] self.spec_has_link(s, d)
                    && pred(self.spec_link(s, d)),
            forall|s: AgentId, d: AgentId|
                #[trigger] self.spec_has_link(s, d) && pred(self.spec_link(s, d))
                    ==> exists|k: int|
                    0 <= k < kept.len() && (#[trigger] kept[k]).source == s
                        && kept[k].destination == d && kept[k] == self.spec_link(s, d),
    {
        broadcast use vstd::seq_lib::group_filter_ensures;

        lemma_filter_sub_elements(self.links@, pred);
        lemma_filter_pairs_unique(self.links@, pred);
        assert forall|k: int|
            0 <= k < kept.len() implies 0 <= (#[trigger] kept[k]).last_update_ms
                <= self.current_time_ms by {
            let j = choose|j: int|
                0 <= j < self.links@.len() && #[trigger] self.links@[j] == kept[k];
        }
        assert forall|s: AgentId, d: AgentId|
            (exists|k: int|
                0 <= k < kept.len() && (#[trigger] kept[k]).source == s
                    && kept[k].destination == d) implies #[trigger] self.spec_has_link(s, d)
                && pred(self.spec_link(s, d)) by {
            let k = choose|k: int|
                0 <= k < kept.len() && (#[trigger] kept[k]).source == s
                    && kept[k].destination == d;
            let j = choose|j: int|
                0 <= j < self.links@.len() && #[trigger] self.links@[j] == kept[k];
            self.lemma_link_lookup(s, d);
            assert(self.spec_link(s, d) == kept[k]);
        }
        assert forall|s: AgentId, d: AgentId|
            #[trigger] self.spec_has_link(s, d) && pred(self.spec_link(s, d))
                implies exists|k: int|
                0 <= k < kept.len() && (#[trigger] kept[k]).source == s
                    && kept[k].destination == d && kept[k] == self.spec_link(s, d) by {
            let j = choose|j: int|
                0 <= j < self.links@.len() && (#[trigger] self.links@[j]).source == s
                    && self.links@[j].destination == d;
            self.lemma_link_lookup(s, d);
            assert(self.links@[j] == self.spec_link(s, d));
            assert(kept.contains(self.links@[j]));
            let k = choose|k: int| 0 <= k < kept.len() && kept[k] == self.links@[j];
            assert(kept[k].source == s && kept[k].destination == d);
        }
    }

    /// With a well-formed link list, every index matching the pair holds
    /// the value `spec_link` denotes.
    proof fn lemma_link_lookup(self, source: AgentId, destination: AgentId)
        requires
            self.wf(),
        ensures
            forall|i: int|
                0 <= i < self.links@.len() && (#[trigger] self.links@[i]).source == source
                    && self.links@[i].destination == destination ==> self.links@[i]
                    == self.spec_link(source, destination),
    {
        assert forall|i: int|
            0 <= i < self.links@.len() && (#[trigger] self.links@[i]).source == source
                && self.links@[i].destination == destination implies self.links@[i]
                == self.spec_link(source, destination) by {
            let j = choose|j: int|
                0 <= j < self.links@.len() && (#[trigger] self.links@[j]).source == source
                    && self.links@[j].destination == destination;
            if i < j {
                assert(false);
            } else if j < i {
                assert(false);
            }
        }
    }
}

/// Number of `true` entries among the first `i`.
spec fn count_true(s: Seq<bool>, i: int) -> int
    decreases i,
{
    if i <= 0 {
        0
    } else {
        count_true(s, i - 1) + if s[i - 1] {
            1int
        } else {
            0int
        }
    }
}

proof fn lemma_count_true_all(s: Seq<bool>, i: int)
    requires
        0 <= i <= s.len(),
        forall|t: int| 0 <= t < i ==> s[t],
    ensures
        count_true(s, i) == i,
    decreases i,
{
    if i > 0 {
        lemma_count_true_all(s, i - 1);
    }
}

proof fn lemma_count_true_none(s: Seq<bool>, i: int)
    requires
        0 <= i <= s.len(),
        forall|t: int| 0 <= t < i ==> !s[t],
    ensures
        count_true(s, i) == 0,
    decreases i,
{
    if i > 0 {
        lemma_count_true_none(s, i - 1);
    }
}

proof fn lemma_count_true_nonneg(s: Seq<bool>, i: int)
    requires
        0 <= i <= s.len(),
    ensures
        count_true(s, i) >= 0,
    decreases i,
{
    if i > 0 {
        lemma_count_true_nonneg(s, i - 1);
    }
}

proof fn lemma_count_true_member(s: Seq<bool>, j: int, i: int)
    requires
        0 <= j < i <= s.len(),
        s[j],
    ensures
        count_true(s, i) >= 1,
    decreases i,
{
    if j < i - 1 {
        lemma_count_true_member(s, j, i - 1);
    } else {
        lemma_count_true_nonneg(s, i - 1);
    }
}

proof fn lemma_count_true_update_false(s: Seq<bool>, j: int, i: int)
    requires
        0 <= j < i <= s.len(),
        s[j],
    ensures
        count_true(s.update(j, false), i) == count_true(s, i) - 1,
    decreases i,
{
    if j == i - 1 {
        lemma_count_true_frame(s, s.update(j, false), i - 1);
    } else {
        lemma_count_true_update_false(s, j, i - 1);
    }
}

proof fn lemma_count_true_frame(s1: Seq<bool>, s2: Seq<bool>, i: int)
    requires
        0 <= i <= s1.len(),
        i <= s2.len(),
        forall|t: int| 0 <= t < i ==> s1[t] == s2[t],
    ensures
        count_true(s1, i) == count_true(s2, i),
    decreases i,
{
    if i > 0 {
        lemma_count_true_frame(s1, s2, i - 1);
    }
}

/// Element-wise copy of an identifier list.
pub(crate) fn copy_ids(v: &Vec<AgentId>) -> (r: Vec<AgentId>)
    ensures
        r@ == v@,
{
    let mut out: Vec<AgentId> = Vec::new();
    let mut i: usize = 0;
    while i < v.len()
        invariant
            i <= v@.len(),
            out@.len() == i,
            forall|k: int| 0 <= k < i ==> out@[k] == v@[k],
        decreases v@.len() - i,
    {
        out.push(v[i]);
        i += 1;
    }
    proof {
        assert(out@ =~= v@);
    }
    out
}

/// Linear membership test.
pub(crate) fn vec_contains(v: &Vec<AgentId>, x: AgentId) -> (r: bool)
    ensures
        r == v@.contains(x),
{
    let mut i: usize = 0;
    while i < v.len()
        invariant
            i <= v@.len(),
            forall|k: int| 0 <= k < i ==> v@[k] != x,
        decreases v@.len() - i,
    {
        if v[i] == x {
            return true;
        }
        i += 1;
    }
    false
}

} // verus!
