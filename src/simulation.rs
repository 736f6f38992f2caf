//! The tick-by-tick engine that carries opinions and relationship strengths.
use vstd::prelude::*;
use crate::dynamics::{
    clamp_opinion,
    clamped,
    next_opinion,
    next_weight,
    respond,
    OPINION_CEILING,
    OPINION_LIMIT,
};
use crate::graph::WeightedGraph;
use crate::random::below;
use rand::rngs::StdRng;

verus! {

/// The simulation runs the ticks `1` to `MAX_TIME - 1`; tick 0 is the initial
/// network.
pub const MAX_TIME: u64 = 10000;

/// The weight of the edge between `sender` and `recipient` as of `tick`.
#[derive(Clone, Copy, Debug, PartialEq, Eq)]
pub struct NetworkEvent {
    pub tick: u64,
    pub sender: usize,
    pub recipient: usize,
    pub weight: u32,
}

/// The opinion of `agent` at the end of `tick`.
#[derive(Clone, Copy, Debug, PartialEq, Eq)]
pub struct OpinionEvent {
    pub tick: u64,
    pub agent: usize,
    pub opinion: i64,
}

/// `a` comes before `b` when ordered by sender, then recipient.
pub open spec fn pair_before(a: NetworkEvent, b: NetworkEvent) -> bool {
    a.sender < b.sender || (a.sender == b.sender && a.recipient < b.recipient)
}

/// The opinions of a population and the network that joins them.
pub struct Simulation {
    graph: WeightedGraph,
    opinions: Vec<i64>,
    consensus: i64,
    opposition: i64,
}

impl Simulation {
    pub closed spec fn network(&self) -> WeightedGraph {
        self.graph
    }

    pub closed spec fn opinion_view(&self) -> Seq<i64> {
        self.opinions@
    }

    pub closed spec fn consensus_threshold(&self) -> i64 {
        self.consensus
    }

    pub closed spec fn opposition_threshold(&self) -> i64 {
        self.opposition
    }

    pub open spec fn wf(&self) -> bool {
        &&& self.network().wf()
        &&& self.opinion_view().len() == self.network().dim()
        &&& forall|i: int|
            0 <= i < self.opinion_view().len() ==> -OPINION_LIMIT <= #[trigger] self.opinion_view()[i]
                <= OPINION_LIMIT
    }

    /// The weight between `sender` and `r` once `message` has been heard.
    pub open spec fn weight_after(&self, sender: int, message: int, r: int) -> int {
        let w = self.network().weight(sender, r);
        if w > 0 {
            next_weight(
                w,
                self.opinion_view()[r] as int,
                message,
                self.consensus_threshold() as int,
                self.opposition_threshold() as int,
            )
        } else {
            w
        }
    }

    /// The opinion of `r` once `message` from `sender` has been heard, before
    /// the clamp.
    pub open spec fn opinion_after(&self, sender: int, message: int, r: int) -> int {
        let w = self.network().weight(sender, r);
        if w > 0 {
            next_opinion(
                w,
                self.opinion_view()[r] as int,
                message,
                self.consensus_threshold() as int,
                self.opposition_threshold() as int,
            )
        } else {
            self.opinion_view()[r] as int
        }
    }

    /// A simulation over `graph` starting from `opinions`.
    pub fn new(graph: WeightedGraph, opinions: Vec<i64>, consensus: i64, opposition: i64) -> (s:
        Self)
        requires
            graph.wf(),
            opinions@.len() == graph.dim(),
            forall|i: int|
                0 <= i < opinions@.len() ==> -OPINION_LIMIT <= #[trigger] opinions@[i]
                    <= OPINION_LIMIT,
        ensures
            s.wf(),
            s.network() == graph,
            s.opinion_view() == opinions@,
            s.consensus_threshold() == consensus,
            s.opposition_threshold() == opposition,
    {
        Simulation { graph, opinions, consensus, opposition }
    }

    pub fn graph(&self) -> (r: &WeightedGraph)
        ensures
            *r == self.network(),
    {
        &self.graph
    }

    pub fn opinions(&self) -> (r: &Vec<i64>)
        ensures
            r@ == self.opinion_view(),
    {
        &self.opinions
    }

    pub fn population(&self) -> (r: usize)
        requires
            self.wf(),
        ensures
            r == self.network().dim(),
    {
        self.graph.size()
    }

    /// The sender of the next message, drawn uniformly from the population.
    pub fn pick_sender(&self, rng: &mut StdRng) -> (r: usize)
        requires
            self.wf(),
            self.network().dim() > 0,
        ensures
            r < self.network().dim(),
    {
        below(rng, self.graph.size())
    }

    /// One event for each edge of the network, at tick 0, from the higher
    /// node to the lower, ordered by sender and then recipient.
    pub fn initial_events(&self) -> (r: Vec<NetworkEvent>)
        requires
            self.wf(),
        ensures
            forall|k: int|
                0 <= k < r@.len() ==> {
                    let e = #[trigger] r@[k];
                    &&& e.tick == 0
                    &&& e.recipient < e.sender < self.network().dim()
                    &&& e.weight == self.network().weight(e.sender as int, e.recipient as int)
                    &&& e.weight != 0
                },
            forall|k1: int, k2: int|
                0 <= k1 < k2 < r@.len() ==> pair_before(#[trigger] r@[k1], #[trigger] r@[k2]),
            forall|s: int, t: int|
                0 <= t < s < self.network().dim() && #[trigger] self.network().weight(s, t) != 0
                    ==> exists|k: int|
                    0 <= k < r@.len() && (#[trigger] r@[k]).sender == s && r@[k].recipient == t,
    {
        let n = self.graph.size();
        let ghost g = self.graph;
        let mut events: Vec<NetworkEvent> = Vec::new();
        let mut sender: usize = 0;
        while sender < n
            invariant
                g == self.network(),
                g.wf(),
                n == g.dim(),
                sender <= n,
                forall|k: int|
                    0 <= k < events@.len() ==> {
                        let e = #[trigger] events@[k];
                        &&& e.tick == 0
                        &&& e.recipient < e.sender < sender
                        &&& e.weight == g.weight(e.sender as int, e.recipient as int)
                        &&& e.weight != 0
                    },
                forall|k1: int, k2: int|
                    0 <= k1 < k2 < events@.len() ==> pair_before(
                        #[trigger] events@[k1],
                        #[trigger] events@[k2],
                    ),
                forall|s: int, t: int|
                    0 <= t < s < sender && #[trigger] g.weight(s, t) != 0 ==> exists|k: int|
                        0 <= k < events@.len() && (#[trigger] events@[k]).sender == s
                            && events@[k].recipient == t,
            decreases n - sender,
        {
            let mut recipient: usize = 0;
            while recipient < sender
                invariant
                    g == self.network(),
                    g.wf(),
                    n == g.dim(),
                    recipient <= sender < n,
                    forall|k: int|
                        0 <= k < events@.len() ==> {
                            let e = #[trigger] events@[k];
                            &&& e.tick == 0
                            &&& e.recipient < e.sender <= sender
                            &&& e.sender == sender ==> e.recipient < recipient
                            &&& e.weight == g.weight(e.sender as int, e.recipient as int)
                            &&& e.weight != 0
                        },
                    forall|k1: int, k2: int|
                        0 <= k1 < k2 < events@.len() ==> pair_before(
                            #[trigger] events@[k1],
                            #[trigger] events@[k2],
                        ),
                    forall|s: int, t: int|
                        0 <= t < s < sender && #[trigger] g.weight(s, t) != 0 ==> exists|k: int|
                            0 <= k < events@.len() && (#[trigger] events@[k]).sender == s
                                && events@[k].recipient == t,
                    forall|t: int|
                        0 <= t < recipient && #[trigger] g.weight(sender as int, t) != 0
                            ==> exists|k: int|
                            0 <= k < events@.len() && (#[trigger] events@[k]).sender == sender
                                && events@[k].recipient == t,
                decreases sender - recipient,
            {
                let weight = self.graph.get(sender, recipient);
                if weight != 0 {
                    let ghost prev = events@;
                    events.push(NetworkEvent { tick: 0, sender, recipient, weight });
                    assert(events@[prev.len() as int].recipient == recipient);
                    assert forall|s: int, t: int|
                        0 <= t < s < sender && #[trigger] g.weight(s, t) != 0 implies exists|k: int|
                        0 <= k < events@.len() && (#[trigger] events@[k]).sender == s
                            && events@[k].recipient == t by {
                        let k = choose|k: int|
                            0 <= k < prev.len() && (#[trigger] prev[k]).sender == s
                                && prev[k].recipient == t;
                        assert(events@[k] == prev[k]);
                    }
                    assert forall|t: int|
                        0 <= t <= recipient && #[trigger] g.weight(sender as int, t) != 0
                            implies exists|k: int|
                        0 <= k < events@.len() && (#[trigger] events@[k]).sender == sender
                            && events@[k].recipient == t by {
                        if t < recipient {
                            let k = choose|k: int|
                                0 <= k < prev.len() && (#[trigger] prev[k]).sender == sender
                                    && prev[k].recipient == t;
                            assert(events@[k] == prev[k]);
                        } else {
                            assert(events@[prev.len() as int].sender == sender);
                        }
                    }
                }
                recipient = recipient + 1;
            }
            sender = sender + 1;
        }
        events
    }

    /// The opinion of every agent, at `tick`, in agent order.
    pub fn opinion_events(&self, tick: u64) -> (r: Vec<OpinionEvent>)
        requires
            self.wf(),
        ensures
            r@.len() == self.opinion_view().len(),
            forall|k: int|
                0 <= k < r@.len() ==> #[trigger] r@[k] == (OpinionEvent {
                    tick,
                    agent: k as usize,
                    opinion: self.opinion_view()[k],
                }),
    {
        let mut events: Vec<OpinionEvent> = Vec::new();
        let mut agent: usize = 0;
        while agent < self.opinions.len()
            invariant
                agent <= self.opinion_view().len(),
                events@.len() == agent,
                forall|k: int|
                    0 <= k < agent ==> #[trigger] events@[k] == (OpinionEvent {
                        tick,
                        agent: k as usize,
                        opinion: self.opinion_view()[k],
                    }),
            decreases self.opinion_view().len() - agent,
        {
            events.push(OpinionEvent { tick, agent, opinion: self.opinions[agent] });
            agent = agent + 1;
        }
        events
    }

    /// One tick: `sender` broadcasts `message` to every node it has an edge
    /// with; each recipient's opinion and edge move by the update rule; then
    /// every opinion is clamped into `[0, OPINION_CEILING]`. Returns one event
    /// per recipient, in recipient order, with the edge's new weight.
    pub fn step(&mut self, tick: u64, sender: usize, message: i64) -> (r: Vec<NetworkEvent>)
        requires
            old(self).wf(),
            1 <= tick < MAX_TIME,
            sender < old(self).network().dim(),
            -OPINION_LIMIT <= message <= OPINION_LIMIT,
        ensures
            final(self).wf(),
            final(self).network().dim() == old(self).network().dim(),
            final(self).consensus_threshold() == old(self).consensus_threshold(),
            final(self).opposition_threshold() == old(self).opposition_threshold(),
            forall|t: int|
                0 <= t < old(self).network().dim() ==> #[trigger] final(self).network().weight(
                    sender as int,
                    t,
                ) == old(self).weight_after(sender as int, message as int, t),
            forall|i: int, j: int|
                0 <= i < old(self).network().dim() && 0 <= j < old(self).network().dim() && i
                    != sender && j != sender ==> #[trigger] final(self).network().weight(i, j)
                    == old(self).network().weight(i, j),
            forall|t: int|
                0 <= t < old(self).network().dim() ==> #[trigger] final(self).opinion_view()[t]
                    == clamped(old(self).opinion_after(sender as int, message as int, t)),
            forall|t: int|
                0 <= t < final(self).opinion_view().len() ==> 0 <= #[trigger] final(self).opinion_view()[t]
                    <= OPINION_CEILING,
            forall|k: int|
                0 <= k < r@.len() ==> {
                    let e = #[trigger] r@[k];
                    &&& e.tick == tick
                    &&& e.sender == sender
                    &&& e.recipient < old(self).network().dim()
                    &&& old(self).network().weight(sender as int, e.recipient as int) > 0
                    &&& e.weight == final(self).network().weight(sender as int, e.recipient as int)
                },
            forall|k1: int, k2: int|
                0 <= k1 < k2 < r@.len() ==> (#[trigger] r@[k1]).recipient < (
                #[trigger] r@[k2]).recipient,
            forall|t: int|
                0 <= t < old(self).network().dim() && #[trigger] old(self).network().weight(
                    sender as int,
                    t,
                ) > 0 ==> exists|k: int| 0 <= k < r@.len() && (#[trigger] r@[k]).recipient == t,
    {
        let ghost start = *self;
        let n = self.graph.size();
        let mut events: Vec<NetworkEvent> = Vec::new();
        let mut recipient: usize = 0;
        while recipient < n
            invariant
                start.wf(),
                self.graph.wf(),
                self.graph.dim() == n,
                n == start.network().dim(),
                sender < n,
                recipient <= n,
                -OPINION_LIMIT <= message <= OPINION_LIMIT,
                self.opinions@.len() == n,
                self.consensus == start.consensus_threshold(),
                self.opposition == start.opposition_threshold(),
                forall|t: int|
                    0 <= t < recipient ==> #[trigger] self.opinions@[t] == start.opinion_after(
                        sender as int,
                        message as int,
                        t,
                    ),
                forall|t: int|
                    recipient <= t < n ==> #[trigger] self.opinions@[t] == start.opinion_view()[t],
                forall|t: int|
                    0 <= t < recipient ==> #[trigger] self.graph.weight(sender as int, t)
                        == start.weight_after(sender as int, message as int, t),
                forall|i: int, j: int|
                    0 <= i < n && 0 <= j < n && !(i == sender && j < recipient) && !(j == sender
                        && i < recipient) ==> #[trigger] self.graph.weight(i, j)
                        == start.network().weight(i, j),
                forall|k: int|
                    0 <= k < events@.len() ==> {
                        let e = #[trigger] events@[k];
                        &&& e.tick == tick
                        &&& e.sender == sender
                        &&& e.recipient < recipient
                        &&& start.network().weight(sender as int, e.recipient as int) > 0
                        &&& e.weight == self.graph.weight(sender as int, e.recipient as int)
                    },
                forall|k1: int, k2: int|
                    0 <= k1 < k2 < events@.len() ==> (#[trigger] events@[k1]).recipient < (
                    #[trigger] events@[k2]).recipient,
                forall|t: int|
                    0 <= t < recipient && #[trigger] start.network().weight(sender as int, t) > 0
                        ==> exists|k: int|
                        0 <= k < events@.len() && (#[trigger] events@[k]).recipient == t,
            decreases n - recipient,
        {
            let weight = self.graph.get(sender, recipient);
            if weight > 0 {
                let ghost before = *self;
                let ghost prev = events@;
                let (new_weight, new_opinion) = respond(
                    weight,
                    self.opinions[recipient],
                    message,
                    self.consensus,
                    self.opposition,
                );
                self.graph.put(sender, recipient, new_weight);
                self.opinions.set(recipient, new_opinion);
                events.push(
                    NetworkEvent { tick, sender, recipient, weight: self.graph.get(sender, recipient) },
                );
                assert(events@[prev.len() as int].recipient == recipient);
                assert forall|t: int|
                    0 <= t <= recipient && #[trigger] start.network().weight(sender as int, t) > 0
                        implies exists|k: int|
                    0 <= k < events@.len() && (#[trigger] events@[k]).recipient == t by {
                    if t < recipient {
                        let k = choose|k: int| 0 <= k < prev.len() && (#[trigger] prev[k]).recipient == t;
                        assert(events@[k] == prev[k]);
                    }
                }
                assert forall|k: int| 0 <= k < events@.len() implies {
                    let e = #[trigger] events@[k];
                    &&& e.tick == tick
                    &&& e.sender == sender
                    &&& e.recipient < recipient + 1
                    &&& start.network().weight(sender as int, e.recipient as int) > 0
                    &&& e.weight == self.graph.weight(sender as int, e.recipient as int)
                } by {
                    if k < prev.len() {
                        assert(events@[k] == prev[k]);
                        assert(self.graph.weight(sender as int, prev[k].recipient as int)
                            == before.graph.weight(sender as int, prev[k].recipient as int));
                    }
                }
            }
            recipient = recipient + 1;
        }
        let ghost mid = self.graph;
        let mut index: usize = 0;
        while index < n
            invariant
                self.graph == mid,
                self.consensus == start.consensus_threshold(),
                self.opposition == start.opposition_threshold(),
                index <= n,
                self.opinions@.len() == n,
                forall|t: int|
                    0 <= t < index ==> #[trigger] self.opinions@[t] == clamped(
                        start.opinion_after(sender as int, message as int, t),
                    ),
                forall|t: int|
                    index <= t < n ==> #[trigger] self.opinions@[t] == start.opinion_after(
                        sender as int,
                        message as int,
                        t,
                    ),
            decreases n - index,
        {
            let clamped_value = clamp_opinion(self.opinions[index]);
            self.opinions.set(index, clamped_value);
            index = index + 1;
        }
        events
    }
}

} // verus!