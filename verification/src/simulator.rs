//! A deterministic discrete-event simulator for a cluster of replicas
//! and clients.
//!
//! Virtual time advances only by popping the earliest bucket of a timing
//! wheel. Every message travels through a configured link (latency,
//! jitter, loss, duplication — randomness drawn from a seeded
//! deterministic generator), every timer firing is checked against the
//! target replica's current deadline, and everything observable is
//! appended to a trace. Two runs from equal configurations and scripts
//! produce equal traces: the simulator is a pure function of its inputs.

use crate::client::Client;
use crate::effect::{Effect, TimerKind};
use crate::events::Event;
use crate::kv::{KvState, Op, StateMachine};
use crate::message::{dup_message, dup_op, Message};
use crate::replica::{sat_add, spec_sat_add, Replica};
use vstd::prelude::*;

verus! {

/// A node identity in the simulated world.
#[derive(Clone, Copy, Debug, PartialEq, Eq, PartialOrd, Ord, Hash, Structural)]
pub struct NodeId(pub u64);

/// Which kind of node an id names.
#[derive(Clone, Copy, Debug, PartialEq, Eq, PartialOrd, Ord, Hash, Structural)]
pub enum NodeKind {
    Client(NodeId),
    Replica(NodeId),
}

/// One directional link's behaviour.
#[derive(Clone, Copy, Debug, PartialEq, Eq, Structural)]
pub struct Link {
    /// A downed link drops everything silently.
    pub up: bool,
    /// Base latency in virtual milliseconds.
    pub base_ms: u64,
    /// Upper bound on the uniformly drawn extra latency.
    pub jitter_ms: u64,
    /// Percentage of messages lost.
    pub drop_pct: u8,
    /// Percentage of messages delivered twice.
    pub dup_pct: u8,
}

/// The link table: directional entries, installed in symmetric pairs by
/// [`Simulator::set_link`], each `(from, to)` pair appearing once.
#[derive(Clone, Debug)]
pub struct Links(pub Vec<(NodeKind, NodeKind, Link)>);

impl Links {
    /// The link from `from` to `to`, if one is installed.
    pub fn get(&self, from: NodeKind, to: NodeKind) -> (r: Option<Link>)
        ensures
            r == Self::lookup(self.0@, from, to),
    {
        let mut i: usize = 0;
        proof {
            assert(self.0@.skip(0) =~= self.0@);
        }
        while i < self.0.len()
            invariant
                i <= self.0@.len(),
                forall|j: int|
                    0 <= j < i ==> !((#[trigger] self.0@[j]).0 == from && self.0@[j].1 == to),
                Self::lookup(self.0@, from, to) == Self::lookup(self.0@.skip(i as int), from, to),
            decreases self.0@.len() - i,
        {
            proof {
                assert(self.0@.skip(i as int)[0] == self.0@[i as int]);
                assert(self.0@.skip(i as int).drop_first() =~= self.0@.skip(i + 1));
            }
            if self.0[i].0 == from && self.0[i].1 == to {
                return Some(self.0[i].2);
            }
            i = i + 1;
        }
        proof {
            assert(self.0@.skip(i as int) =~= Seq::<(NodeKind, NodeKind, Link)>::empty());
        }
        None
    }

    /// First-match lookup among the entries.
    pub open spec fn lookup(s: Seq<(NodeKind, NodeKind, Link)>, from: NodeKind, to: NodeKind) -> Option<
        Link,
    >
        decreases s.len(),
    {
        if s.len() == 0 {
            None
        } else if s.first().0 == from && s.first().1 == to {
            Some(s.first().2)
        } else {
            Self::lookup(s.drop_first(), from, to)
        }
    }
}

/// First-match lookup after updating the first matching entry: the
/// updated pair answers with the new link, every other pair as before.
proof fn lemma_lookup_update(
    s: Seq<(NodeKind, NodeKind, Link)>,
    x: int,
    e: (NodeKind, NodeKind, Link),
    from: NodeKind,
    to: NodeKind,
)
    requires
        0 <= x < s.len(),
        s[x].0 == e.0,
        s[x].1 == e.1,
        forall|i: int| 0 <= i < x ==> !((#[trigger] s[i]).0 == e.0 && s[i].1 == e.1),
    ensures
        Links::lookup(s.update(x, e), e.0, e.1) == Some(e.2),
        !(from == e.0 && to == e.1) ==> Links::lookup(s.update(x, e), from, to) == Links::lookup(
            s,
            from,
            to,
        ),
    decreases s.len(),
{
    let t = s.update(x, e);
    if x == 0 {
        assert(t.first() == e);
        assert(t.drop_first() =~= s.drop_first());
    } else {
        assert(t.first() == s.first());
        assert(t.drop_first() =~= s.drop_first().update(x - 1, e));
        assert forall|i: int|
            0 <= i < x - 1 implies !((#[trigger] s.drop_first()[i]).0 == e.0
            && s.drop_first()[i].1 == e.1) by {
            assert(s.drop_first()[i] == s[i + 1]);
        }
        assert(s.drop_first()[x - 1] == s[x]);
        lemma_lookup_update(s.drop_first(), x - 1, e, from, to);
    }
}

/// First-match lookup after appending an entry: a pair with no earlier
/// entry answers with the new link, every other pair as before.
proof fn lemma_lookup_push(
    s: Seq<(NodeKind, NodeKind, Link)>,
    e: (NodeKind, NodeKind, Link),
    from: NodeKind,
    to: NodeKind,
)
    ensures
        (forall|i: int| 0 <= i < s.len() ==> !((#[trigger] s[i]).0 == e.0 && s[i].1 == e.1))
            ==> Links::lookup(s.push(e), e.0, e.1) == Some(e.2),
        !(from == e.0 && to == e.1) ==> Links::lookup(s.push(e), from, to) == Links::lookup(
            s,
            from,
            to,
        ),
    decreases s.len(),
{
    let t = s.push(e);
    if s.len() == 0 {
        assert(t.first() == e);
        assert(t.drop_first() =~= Seq::<(NodeKind, NodeKind, Link)>::empty());
        assert(Links::lookup(t.drop_first(), from, to) is None);
        assert(Links::lookup(t.drop_first(), e.0, e.1) is None);
    } else {
        assert(t.first() == s.first());
        assert(t.drop_first() =~= s.drop_first().push(e));
        assert forall|i: int|
            (forall|k: int| 0 <= k < s.len() ==> !((#[trigger] s[k]).0 == e.0 && s[k].1 == e.1))
                && 0 <= i < s.drop_first().len() implies !((#[trigger] s.drop_first()[i]).0 == e.0
            && s.drop_first()[i].1 == e.1) by {
            assert(s.drop_first()[i] == s[i + 1]);
        }
        lemma_lookup_push(s.drop_first(), e, from, to);
    }
}

/// Replica-wise growth between two replica tables: same keys and
/// identities, logs only extended.
pub open spec fn replicas_grow(
    pre: Seq<(u64, Replica<KvState>)>,
    post: Seq<(u64, Replica<KvState>)>,
) -> bool {
    &&& post.len() == pre.len()
    &&& forall|i: int|
        0 <= i < pre.len() ==> {
            let a = (#[trigger] pre[i]).1;
            let b = (#[trigger] post[i]).1;
            &&& post[i].0 == pre[i].0
            &&& b.replica_number == a.replica_number
            &&& b.view_number == a.view_number
            &&& b.configuration@ == a.configuration@
            &&& a.op_number <= b.op_number
            &&& a.log@.is_prefix_of(b.log@)
        }
}

/// In view 0 at most one table entry is primary: a primary's number is
/// `0 mod N == 0`, and keys are unique.
proof fn lemma_primary_unique_in(s: Seq<(u64, Replica<KvState>)>, i: int, j: int)
    requires
        0 <= i < s.len(),
        0 <= j < s.len(),
        forall|a: int, b: int| 0 <= a < b < s.len() ==> s[a].0 != s[b].0,
        forall|a: int| 0 <= a < s.len() ==> (#[trigger] s[a]).0 == s[a].1.replica_number,
        forall|a: int| 0 <= a < s.len() ==> (#[trigger] s[a]).1.view_number == 0,
        forall|a: int| 0 <= a < s.len() ==> (#[trigger] s[a]).1.wf(),
        s[i].1.is_primary_spec(),
        s[j].1.is_primary_spec(),
    ensures
        i == j,
{
    let n1 = s[i].1.n_replicas();
    let n2 = s[j].1.n_replicas();
    assert(n1 >= 1 && n2 >= 1);
    assert(0int % n1 == 0) by (nonlinear_arith)
        requires
            n1 >= 1,
    ;
    assert(0int % n2 == 0) by (nonlinear_arith)
        requires
            n2 >= 1,
    ;
    assert(s[i].1.replica_number == 0);
    assert(s[j].1.replica_number == 0);
    if i != j {
        assert(s[i].0 != s[j].0);
        assert(false);
    }
}

/// Acceptable events stay acceptable while replica logs only grow:
/// a `Prepare` the primary stood behind is still behind its (longer)
/// log, and a primary never stops being one.
proof fn lemma_events_stable(pre: &Simulator, post: &Simulator)
    requires
        replicas_grow(pre.replicas@, post.replicas@),
        forall|i: int|
            0 <= i < pre.replicas@.len() ==> (#[trigger] pre.replicas@[i]).1.wf(),
    ensures
        forall|mm: Message| #[trigger] pre.message_from_primary(mm) ==> post.message_from_primary(
            mm,
        ),
        forall|e: Event| #[trigger] pre.event_ok(e) ==> post.event_ok(e),
{
    assert forall|mm: Message| #[trigger] pre.message_from_primary(mm) implies post
        .message_from_primary(mm) by {
        match mm {
            Message::Prepare { view_number, op_number, commit_number, request } => {
            let w = choose|i: int|
                0 <= i < pre.replicas@.len() && (
                #[trigger] pre.replicas@[i]).1.is_primary_spec();
            assert(post.replicas@[w].1.is_primary_spec());
            assert forall|i: int|
                0 <= i < post.replicas@.len() && (
                #[trigger] post.replicas@[i]).1.is_primary_spec() implies
                crate::replica::prepare_from(
                &post.replicas@[i].1,
                view_number,
                op_number,
                request,
            ) by {
                let a = pre.replicas@[i].1;
                let b = post.replicas@[i].1;
                assert(a.is_primary_spec());
                assert(crate::replica::prepare_from(&a, view_number, op_number, request));
                assert(a.log@.len() == a.op_number as int);
                assert(a.log@ =~= b.log@.subrange(0, a.log@.len() as int));
                assert(b.log@[op_number - 1] == a.log@[op_number - 1]);
            }
            },
            _ => {},
        }
    }
    assert forall|e: Event| #[trigger] pre.event_ok(e) implies post.event_ok(e) by {
        match e {
            Event::Msg(m) => {
                assert(pre.message_from_primary(m));
            },
            _ => {},
        }
    }
}

/// A table equals itself, growth-wise.
proof fn lemma_grow_of_equal(s: Seq<(u64, Replica<KvState>)>)
    ensures
        replicas_grow(s, s),
{
    assert forall|i: int| 0 <= i < s.len() implies {
        let a = (#[trigger] s[i]).1;
        let b = (#[trigger] s[i]).1;
        &&& s[i].0 == s[i].0
        &&& b.replica_number == a.replica_number
        &&& b.view_number == a.view_number
        &&& b.configuration@ == a.configuration@
        &&& a.op_number <= b.op_number
        &&& a.log@.is_prefix_of(b.log@)
    } by {
        assert(s[i].1.log@.is_prefix_of(s[i].1.log@));
    }
}

/// Sound effect batches stay sound while replica logs only grow.
proof fn lemma_effects_stable(pre: &Simulator, post: &Simulator, effects: Seq<Effect>)
    requires
        replicas_grow(pre.replicas@, post.replicas@),
        forall|i: int| 0 <= i < pre.replicas@.len() ==> (#[trigger] pre.replicas@[i]).1.wf(),
        pre.effects_ok(effects),
    ensures
        post.effects_ok(effects),
{
    lemma_events_stable(pre, post);
    assert forall|i: int| 0 <= i < effects.len() implies match #[trigger] effects[i] {
        Effect::Send { message, .. } => post.message_from_primary(message),
        Effect::Broadcast { message, .. } => post.message_from_primary(message),
        Effect::Reply { message, .. } => post.message_from_primary(message),
        _ => true,
    } by {
        match effects[i] {
            Effect::Send { message, .. } => {
                assert(pre.message_from_primary(message));
            },
            Effect::Broadcast { message, .. } => {
                assert(pre.message_from_primary(message));
            },
            Effect::Reply { message, .. } => {
                assert(pre.message_from_primary(message));
            },
            _ => {},
        }
    }
}

/// System-wide agreement: in every reachable simulator state, any two
/// replicas hold the identical log entry at every position committed on
/// both. The simulator maintains [`Simulator::protocol_inv`] through
/// every step, and this draws the conclusion from it.
pub proof fn lemma_system_agreement(sim: &Simulator, i: int, j: int)
    requires
        sim.wf(),
        0 <= i < sim.replicas@.len(),
        0 <= j < sim.replicas@.len(),
    ensures
        forall|k: int|
            0 <= k < sim.replicas@[i].1.commit_number && k < sim.replicas@[j].1.commit_number
                ==> sim.replicas@[i].1.log@[k] == sim.replicas@[j].1.log@[k],
{
    let a = sim.replicas@[i].1;
    let b = sim.replicas@[j].1;
    assert forall|k: int|
        0 <= k < a.commit_number && k < b.commit_number implies a.log@[k] == b.log@[k] by {
        // Committing anything is progress, so a primary exists; both
        // replicas follow it, and each agrees with the primary's log on
        // the positions it holds.
        assert(a.op_number > 0);
        if forall|w: int| 0 <= w < sim.replicas@.len() ==> !(#[trigger] sim.replicas@[w]).1.is_primary_spec() {
            assert(a.op_number == 0);
            assert(false);
        }
        let w = choose|w: int|
            0 <= w < sim.replicas@.len() && (#[trigger] sim.replicas@[w]).1.is_primary_spec();
        let p = sim.replicas@[w].1;
        assert(crate::replica::follows(&a, &p));
        assert(crate::replica::follows(&b, &p));
        assert(a.log@[k] == p.log@[k]);
        assert(b.log@[k] == p.log@[k]);
    }
}

/// One scheduled occurrence on the timing wheel.
pub enum WheelEvent {
    /// Pop the head of the target's inbox and hand it to the node.
    Deliver(NodeKind),
    /// A timer deadline came due at a replica.
    FireTimer { node: NodeId, kind: TimerKind },
    /// A client wakes up and issues an operation.
    ClientThink { client_id: NodeId, op: Op },
}

/// Knobs for a simulation run.
#[derive(Clone, Copy, Debug, PartialEq, Eq, Structural)]
pub struct SimulatorConfig {
    /// Suppress all timer scheduling (handy for pure message tests).
    pub disable_timers: bool,
    /// Where `run` stops when the wheel never empties.
    pub run_until_max_time: Option<u64>,
    /// Seed for the deterministic random generator.
    pub seed: u64,
    /// Hard bound on processed wheel buckets per `run_until` call.
    pub step_budget: u64,
}

/// The default run knobs: timers on, no time bound, seed 0, a generous
/// step budget.
pub open spec fn spec_default_config() -> SimulatorConfig {
    SimulatorConfig { disable_timers: false, run_until_max_time: None, seed: 0, step_budget: 1000000 }
}

impl Default for SimulatorConfig {
    /// Timers on, no time bound, seed 0, a generous step budget.
    fn default() -> (r: Self)
        ensures
            r == spec_default_config(),
    {
        SimulatorConfig {
            disable_timers: false,
            run_until_max_time: None,
            seed: 0,
            step_budget: 1000000,
        }
    }
}

/// One observable occurrence, recorded in order. Equal runs leave equal
/// traces.
#[derive(Clone, Debug, PartialEq)]
pub enum TraceEntry {
    /// A message was handed to a link and scheduled for delivery.
    Sent { at: u64, from: NodeKind, to: NodeKind, deliver_at: u64, message: Message },
    /// A message was lost on the link.
    Dropped { at: u64, from: NodeKind, to: NodeKind },
    /// An inbox head was delivered to its node.
    Delivered { at: u64, to: NodeKind },
    /// A timer was armed at a replica.
    TimerSet { at: u64, node: NodeId, kind: TimerKind, fire_at: u64 },
    /// A due timer matched its replica's deadline and was delivered.
    TimerFired { at: u64, node: NodeId, kind: TimerKind },
    /// A replica ran its state machine for a committed op.
    Applied { at: u64, node: NodeId, op_number: u64 },
}

/// The next state of the deterministic random generator.
pub open spec fn spec_rng_next(s: u64) -> u64 {
    ((s as int * 6364136223846793005 + 1442695040888963407) % 0x10000000000000000) as u64
}

/// The discrete-event driver: virtual clock, timing wheel, inboxes,
/// links, replicas and clients.
pub struct Simulator {
    /// Virtual time in milliseconds; advances only between buckets.
    pub now: u64,
    /// The timing wheel: buckets of events at strictly increasing times,
    /// none earlier than `now`.
    pub wheel: Vec<(u64, Vec<WheelEvent>)>,
    /// The replicas, by node id.
    pub replicas: Vec<(u64, Replica<KvState>)>,
    /// Per-replica FIFO inboxes.
    pub inbox_replica: Vec<(u64, Vec<Event>)>,
    /// Per-client FIFO inboxes.
    pub inbox_client: Vec<(u64, Vec<Event>)>,
    /// The link table.
    pub links: Links,
    /// The clients, by node id.
    pub clients: Vec<(u64, Client)>,
    /// The run's knobs.
    pub config: SimulatorConfig,
    /// The deterministic random state.
    pub rng: u64,
    /// Everything observable, in order.
    pub trace: Vec<TraceEntry>,
    /// Every wheel event ever handed to processing, in processing order;
    /// [`Simulator::step`] appends exactly the bucket it consumes.
    pub processed: Ghost<Seq<WheelEvent>>,
}

impl Simulator {
    /// The simulator's invariant: the wheel is sorted strictly by time
    /// and never behind the clock; replicas and clients are well-formed
    /// and keyed uniquely; and the cluster's protocol state is coherent
    /// ([`Simulator::protocol_inv`]).
    pub open spec fn wf(&self) -> bool {
        &&& forall|i: int| 0 <= i < self.wheel@.len() ==> (#[trigger] self.wheel@[i]).0 >= self.now
        &&& forall|i: int, j: int|
            0 <= i < j < self.wheel@.len() ==> self.wheel@[i].0 < self.wheel@[j].0
        &&& forall|i: int| 0 <= i < self.wheel@.len() ==> (#[trigger] self.wheel@[i]).1@.len() >= 1
        &&& forall|i: int| 0 <= i < self.replicas@.len() ==> (#[trigger] self.replicas@[i]).1.wf()
        &&& forall|i: int, j: int|
            0 <= i < j < self.replicas@.len() ==> self.replicas@[i].0 != self.replicas@[j].0
        &&& forall|i: int| 0 <= i < self.clients@.len() ==> (#[trigger] self.clients@[i]).1.wf()
        &&& forall|i: int, j: int|
            0 <= i < j < self.clients@.len() ==> self.clients@[i].0 != self.clients@[j].0
        &&& self.protocol_inv()
    }

    /// The distributed safety invariant the simulator maintains: the
    /// replica table is coherent, every backup's log is a pointwise
    /// prefix of the primary's, and every `Prepare` waiting in an inbox
    /// is one the primary stands behind. [`lemma_system_agreement`]
    /// draws agreement on committed prefixes from it.
    pub open spec fn protocol_inv(&self) -> bool {
        &&& self.replicas_coherent()
        &&& self.backups_follow()
        &&& self.inboxes_from_primary()
        &&& self.progress_implies_primary()
    }

    /// Table entries are keyed by their replica's own number, every
    /// replica stands in view 0 (the Normal-case core never changes
    /// views), and all share one configuration size.
    pub open spec fn replicas_coherent(&self) -> bool {
        &&& forall|i: int|
            0 <= i < self.replicas@.len() ==> (#[trigger] self.replicas@[i]).0
                == self.replicas@[i].1.replica_number
        &&& forall|i: int|
            0 <= i < self.replicas@.len() ==> (#[trigger] self.replicas@[i]).1.view_number == 0
        &&& forall|i: int, j: int|
            0 <= i < self.replicas@.len() && 0 <= j < self.replicas@.len() ==> (
            #[trigger] self.replicas@[i]).1.configuration@.len() == (
            #[trigger] self.replicas@[j]).1.configuration@.len()
    }

    /// Every replica follows the primary: its log is, position for
    /// position, a prefix of the primary's log.
    pub open spec fn backups_follow(&self) -> bool {
        forall|i: int, j: int|
            0 <= i < self.replicas@.len() && 0 <= j < self.replicas@.len() && (
            #[trigger] self.replicas@[i]).1.is_primary_spec() ==> crate::replica::follows(
                &(#[trigger] self.replicas@[j]).1,
                &self.replicas@[i].1,
            )
    }

    /// If `m` is a `Prepare`, a primary exists and stands behind it.
    pub open spec fn message_from_primary(&self, m: Message) -> bool {
        m matches Message::Prepare { view_number, op_number, commit_number, request } ==> {
            &&& exists|i: int|
                0 <= i < self.replicas@.len() && (
                #[trigger] self.replicas@[i]).1.is_primary_spec()
            &&& forall|i: int|
                0 <= i < self.replicas@.len() && (#[trigger] self.replicas@[i]).1.is_primary_spec()
                    ==> crate::replica::prepare_from(
                    &self.replicas@[i].1,
                    view_number,
                    op_number,
                    request,
                )
        }
    }

    /// An inbox event is acceptable when any `Prepare` it carries comes
    /// from the primary.
    pub open spec fn event_ok(&self, ev: Event) -> bool {
        ev matches Event::Msg(m) ==> self.message_from_primary(m)
    }

    /// Every event waiting in every replica inbox is acceptable.
    pub open spec fn inboxes_from_primary(&self) -> bool {
        forall|j: int, k: int|
            0 <= j < self.inbox_replica@.len() && 0 <= k < self.inbox_replica@[j].1@.len()
                ==> self.event_ok(#[trigger] self.inbox_replica@[j].1@[k])
    }

    /// A log can only have grown under a primary, and primaries are
    /// never removed: any progress witnesses one.
    pub open spec fn progress_implies_primary(&self) -> bool {
        (forall|i: int|
            0 <= i < self.replicas@.len() ==> !(#[trigger] self.replicas@[i]).1.is_primary_spec())
            ==> forall|i: int|
            0 <= i < self.replicas@.len() ==> (#[trigger] self.replicas@[i]).1.op_number == 0
    }

    /// Every batch of effects carries only `Prepare`s the primary
    /// stands behind.
    pub open spec fn effects_ok(&self, effects: Seq<Effect>) -> bool {
        forall|i: int|
            0 <= i < effects.len() ==> match #[trigger] effects[i] {
                Effect::Send { message, .. } => self.message_from_primary(message),
                Effect::Broadcast { message, .. } => self.message_from_primary(message),
                Effect::Reply { message, .. } => self.message_from_primary(message),
                _ => true,
            }
    }

    /// A fresh, empty world at time 0.
    pub fn new(config: Option<SimulatorConfig>) -> (r: Simulator)
        ensures
            r.wf(),
            r.now == 0,
            r.wheel@.len() == 0,
            r.replicas@.len() == 0,
            r.clients@.len() == 0,
            r.inbox_replica@.len() == 0,
            r.inbox_client@.len() == 0,
            r.links.0@.len() == 0,
            r.trace@.len() == 0,
            r.processed@.len() == 0,
            r.config == (match config {
                Some(c) => c,
                None => spec_default_config(),
            }),
            r.rng == r.config.seed,
    {
        let config = match config {
            Some(c) => c,
            None => SimulatorConfig::default(),
        };
        Simulator {
            now: 0,
            wheel: Vec::new(),
            replicas: Vec::new(),
            inbox_replica: Vec::new(),
            inbox_client: Vec::new(),
            links: Links(Vec::new()),
            clients: Vec::new(),
            rng: config.seed,
            config,
            trace: Vec::new(),
            processed: Ghost(Seq::empty()),
        }
    }

    /// Advance the deterministic random generator and return a draw.
    fn rng_next(&mut self) -> (r: u64)
        ensures
            r == spec_rng_next(old(self).rng),
            *final(self) == (Simulator { rng: r, ..*old(self) }),
    {
        let next = (((self.rng as u128) * 6364136223846793005u128 + 1442695040888963407u128)
            % 0x10000000000000000u128) as u64;
        self.rng = next;
        next
    }

    /// The node ids of all clients, in insertion order.
    pub fn get_clients(&self) -> (r: Vec<NodeId>)
        ensures
            r@.len() == self.clients@.len(),
            forall|i: int| 0 <= i < r@.len() ==> r@[i] == NodeId(self.clients@[i].0),
    {
        let mut out: Vec<NodeId> = Vec::new();
        let mut i: usize = 0;
        while i < self.clients.len()
            invariant
                i <= self.clients@.len(),
                out@.len() == i,
                forall|j: int| 0 <= j < i ==> out@[j] == NodeId(self.clients@[j].0),
            decreases self.clients@.len() - i,
        {
            out.push(NodeId(self.clients[i].0));
            i = i + 1;
        }
        out
    }

    /// The node ids of all replicas, in insertion order.
    pub fn get_replicas(&self) -> (r: Vec<NodeId>)
        ensures
            r@.len() == self.replicas@.len(),
            forall|i: int| 0 <= i < r@.len() ==> r@[i] == NodeId(self.replicas@[i].0),
    {
        let mut out: Vec<NodeId> = Vec::new();
        let mut i: usize = 0;
        while i < self.replicas.len()
            invariant
                i <= self.replicas@.len(),
                out@.len() == i,
                forall|j: int| 0 <= j < i ==> out@[j] == NodeId(self.replicas@[j].0),
            decreases self.replicas@.len() - i,
        {
            out.push(NodeId(self.replicas[i].0));
            i = i + 1;
        }
        out
    }

    /// A copy of the link table.
    pub fn get_links(&self) -> (r: Links)
        ensures
            r.0@ == self.links.0@,
    {
        let mut out: Vec<(NodeKind, NodeKind, Link)> = Vec::new();
        let mut i: usize = 0;
        while i < self.links.0.len()
            invariant
                i <= self.links.0@.len(),
                out@.len() == i,
                forall|j: int| 0 <= j < i ==> out@[j] == self.links.0@[j],
            decreases self.links.0@.len() - i,
        {
            out.push(self.links.0[i]);
            i = i + 1;
        }
        proof {
            assert(out@ =~= self.links.0@);
        }
        Links(out)
    }

    /// Borrow the replica with this id, if present.
    pub fn replica_at(&self, id: NodeId) -> (r: Option<&Replica<KvState>>)
        ensures
            match r {
                Some(rep) => exists|i: int|
                    0 <= i < self.replicas@.len() && (#[trigger] self.replicas@[i]).0 == id.0
                        && *rep == self.replicas@[i].1,
                None => forall|i: int|
                    0 <= i < self.replicas@.len() ==> (#[trigger] self.replicas@[i]).0 != id.0,
            },
    {
        let mut i: usize = 0;
        while i < self.replicas.len()
            invariant
                i <= self.replicas@.len(),
                forall|j: int| 0 <= j < i ==> (#[trigger] self.replicas@[j]).0 != id.0,
            decreases self.replicas@.len() - i,
        {
            if self.replicas[i].0 == id.0 {
                return Some(&self.replicas[i].1);
            }
            i = i + 1;
        }
        None
    }

    /// Borrow the client with this id, if present.
    pub fn client_at(&self, id: NodeId) -> (r: Option<&Client>)
        ensures
            match r {
                Some(c) => exists|i: int|
                    0 <= i < self.clients@.len() && (#[trigger] self.clients@[i]).0 == id.0 && *c
                        == self.clients@[i].1,
                None => forall|i: int|
                    0 <= i < self.clients@.len() ==> (#[trigger] self.clients@[i]).0 != id.0,
            },
    {
        let mut i: usize = 0;
        while i < self.clients.len()
            invariant
                i <= self.clients@.len(),
                forall|j: int| 0 <= j < i ==> (#[trigger] self.clients@[j]).0 != id.0,
            decreases self.clients@.len() - i,
        {
            if self.clients[i].0 == id.0 {
                return Some(&self.clients[i].1);
            }
            i = i + 1;
        }
        None
    }

    /// Where an event asked for at `at` lands: never before `now`.
    pub open spec fn clamp_time(now: u64, at: u64) -> u64 {
        if at < now {
            now
        } else {
            at
        }
    }

    /// Schedule one event; a time already in the past lands at `now`.
    #[verifier::rlimit(100)]
    #[verifier::spinoff_prover]
    fn schedule(&mut self, at: u64, event: WheelEvent)
        requires
            old(self).wf(),
        ensures
            final(self).wf(),
            final(self).now == old(self).now,
            final(self).replicas == old(self).replicas,
            final(self).clients == old(self).clients,
            final(self).inbox_replica == old(self).inbox_replica,
            final(self).inbox_client == old(self).inbox_client,
            final(self).links == old(self).links,
            final(self).trace == old(self).trace,
            final(self).rng == old(self).rng,
            final(self).config == old(self).config,
            final(self).processed == old(self).processed,
            ({
                let t = Self::clamp_time(old(self).now, at);
                // The event now sits at the end of the bucket for its
                // (clamped) time; every other time's bucket is untouched.
                &&& (exists|j: int|
                    0 <= j < final(self).wheel@.len() && (#[trigger] final(self).wheel@[j]).0 == t
                        && final(self).wheel@[j].1@.len() >= 1 && final(self).wheel@[j].1@.last()
                        == event)
                &&& (forall|j0: int|
                    0 <= j0 < old(self).wheel@.len() && (#[trigger] old(self).wheel@[j0]).0 != t
                        ==> exists|j: int|
                        0 <= j < final(self).wheel@.len() && final(self).wheel@[j] == old(self).wheel@[j0])
                &&& (forall|j: int|
                    0 <= j < final(self).wheel@.len() && (#[trigger] final(self).wheel@[j]).0 != t
                        ==> exists|j0: int|
                        0 <= j0 < old(self).wheel@.len() && old(self).wheel@[j0] == final(self).wheel@[j])
                &&& (forall|j: int, j0: int|
                    0 <= j < final(self).wheel@.len() && 0 <= j0 < old(self).wheel@.len() && (
                    #[trigger] final(self).wheel@[j]).0 == t && (#[trigger] old(self).wheel@[j0]).0 == t ==> final(self).wheel@[j].1@ == old(self).wheel@[j0].1@.push(event))
            }),
    {
        let t = if at < self.now {
            self.now
        } else {
            at
        };
        let mut i: usize = 0;
        while i < self.wheel.len() && self.wheel[i].0 < t
            invariant
                i <= self.wheel@.len(),
                forall|j: int| 0 <= j < i ==> (#[trigger] self.wheel@[j]).0 < t,
            decreases self.wheel@.len() - i,
        {
            i = i + 1;
        }
        if i < self.wheel.len() && self.wheel[i].0 == t {
            let ghost pre = self.wheel@;
            let mut bucket = self.wheel.remove(i);
            bucket.1.push(event);
            self.wheel.insert(i, bucket);
            proof {
                let cur = self.wheel@;
                assert forall|a: int| 0 <= a < cur.len() && a != i implies cur[a] == pre[a] by {
                    assert(cur[a] == pre.remove(i as int).insert(i as int, cur[i as int])[a]);
                }
                assert forall|a: int, b: int|
                    0 <= a < b < cur.len() implies cur[a].0 < cur[b].0 by {
                    assert(cur[a].0 == pre[a].0);
                    assert(cur[b].0 == pre[b].0);
                }
                assert forall|a: int| 0 <= a < cur.len() implies (#[trigger] cur[a]).0
                    >= self.now by {
                    assert(cur[a].0 == pre[a].0);
                }
                assert forall|a: int| 0 <= a < cur.len() implies (#[trigger] cur[a]).1@.len()
                    >= 1 by {
                    if a != i {
                        assert(cur[a] == pre[a]);
                    }
                }
                // The only bucket at time t is the one we extended.
                assert(cur[i as int].0 == t && cur[i as int].1@.len() >= 1 && cur[i
                    as int].1@.last() == event);
                assert forall|j0: int|
                    0 <= j0 < pre.len() && (#[trigger] pre[j0]).0 != t implies exists|j: int|
                    0 <= j < cur.len() && cur[j] == pre[j0] by {
                    assert(cur[j0] == pre[j0]);
                }
                assert forall|j: int|
                    0 <= j < cur.len() && (#[trigger] cur[j]).0 != t implies exists|j0: int|
                    0 <= j0 < pre.len() && pre[j0] == cur[j] by {
                    assert(cur[j] == pre[j]);
                }
                assert forall|j: int, j0: int|
                    0 <= j < cur.len() && 0 <= j0 < pre.len() && (#[trigger] cur[j]).0 == t && (
                    #[trigger] pre[j0]).0 == t implies cur[j].1@ == pre[j0].1@.push(event) by {
                    if j != i {
                        assert(cur[j] == pre[j]);
                        assert(pre[j].0 != pre[i as int].0);
                    }
                    if j0 != i {
                        assert(pre[j0].0 != pre[i as int].0);
                    }
                }
            }
        } else {
            let ghost pre = self.wheel@;
            let mut fresh: Vec<WheelEvent> = Vec::new();
            fresh.push(event);
            self.wheel.insert(i, (t, fresh));
            proof {
                assert forall|a: int, b: int|
                    0 <= a < b < self.wheel@.len() implies self.wheel@[a].0
                    < self.wheel@[b].0 by {
                    if b < i {
                        assert(self.wheel@[a].0 == pre[a].0);
                        assert(self.wheel@[b].0 == pre[b].0);
                    } else if a > i {
                        assert(self.wheel@[a].0 == pre[a - 1].0);
                        assert(self.wheel@[b].0 == pre[b - 1].0);
                    } else if a == i {
                        assert(self.wheel@[b].0 == pre[b - 1].0);
                        assert(pre[b - 1].0 >= t || b - 1 >= i);
                        assert(pre[b - 1].0 != t);
                    } else if b == i {
                        assert(self.wheel@[a].0 == pre[a].0);
                    } else {
                        assert(self.wheel@[a].0 == pre[a].0);
                        assert(self.wheel@[b].0 == pre[b - 1].0);
                        assert(pre[b - 1].0 != t);
                    }
                }
                assert forall|a: int| 0 <= a < self.wheel@.len() implies (
                #[trigger] self.wheel@[a]).0 >= self.now by {
                    if a < i {
                        assert(self.wheel@[a].0 == pre[a].0);
                    } else if a > i {
                        assert(self.wheel@[a].0 == pre[a - 1].0);
                    }
                }
                let cur = self.wheel@;
                assert forall|a: int| 0 <= a < cur.len() implies (#[trigger] cur[a]).1@.len()
                    >= 1 by {
                    if a < i {
                        assert(cur[a] == pre[a]);
                    } else if a > i {
                        assert(cur[a] == pre[a - 1]);
                    }
                }
                // No old bucket carries time t: the scan passed the
                // smaller ones and stopped strictly before t's slot.
                assert forall|j0: int| 0 <= j0 < pre.len() implies (#[trigger] pre[j0]).0
                    != t by {
                    if j0 >= i {
                        assert(pre[i as int].0 <= pre[j0].0);
                    }
                }
                assert(cur[i as int].0 == t && cur[i as int].1@.len() >= 1 && cur[i
                    as int].1@.last() == event);
                assert forall|j0: int|
                    0 <= j0 < pre.len() && (#[trigger] pre[j0]).0 != t implies exists|j: int|
                    0 <= j < cur.len() && cur[j] == pre[j0] by {
                    if j0 < i {
                        assert(cur[j0] == pre[j0]);
                    } else {
                        assert(cur[j0 + 1] == pre[j0]);
                    }
                }
                assert forall|j: int|
                    0 <= j < cur.len() && (#[trigger] cur[j]).0 != t implies exists|j0: int|
                    0 <= j0 < pre.len() && pre[j0] == cur[j] by {
                    if j < i {
                        assert(cur[j] == pre[j]);
                    } else {
                        assert(j > i);
                        assert(cur[j] == pre[j - 1]);
                    }
                }
            }
        }
    }
}

impl Simulator {
    /// The index of the replica entry with this id, if present.
    fn find_replica(&self, id: u64) -> (r: Option<usize>)
        ensures
            match r {
                Some(j) => j < self.replicas@.len() && self.replicas@[j as int].0 == id,
                None => forall|j: int|
                    0 <= j < self.replicas@.len() ==> (#[trigger] self.replicas@[j]).0 != id,
            },
    {
        let mut j: usize = 0;
        while j < self.replicas.len()
            invariant
                j <= self.replicas@.len(),
                forall|i: int| 0 <= i < j ==> (#[trigger] self.replicas@[i]).0 != id,
            decreases self.replicas@.len() - j,
        {
            if self.replicas[j].0 == id {
                return Some(j);
            }
            j = j + 1;
        }
        None
    }

    /// The index of the client entry with this id, if present.
    fn find_client_idx(&self, id: u64) -> (r: Option<usize>)
        ensures
            match r {
                Some(j) => j < self.clients@.len() && self.clients@[j as int].0 == id,
                None => forall|j: int|
                    0 <= j < self.clients@.len() ==> (#[trigger] self.clients@[j]).0 != id,
            },
    {
        let mut j: usize = 0;
        while j < self.clients.len()
            invariant
                j <= self.clients@.len(),
                forall|i: int| 0 <= i < j ==> (#[trigger] self.clients@[i]).0 != id,
            decreases self.clients@.len() - j,
        {
            if self.clients[j].0 == id {
                return Some(j);
            }
            j = j + 1;
        }
        None
    }

    /// Append an event to a node's inbox, creating the inbox if need be.
    fn push_inbox(&mut self, to: NodeKind, ev: Event)
        requires
            old(self).wf(),
            old(self).event_ok(ev),
        ensures
            final(self).wf(),
            final(self).processed == old(self).processed,
            final(self).now == old(self).now,
            final(self).wheel == old(self).wheel,
            final(self).replicas == old(self).replicas,
            final(self).clients == old(self).clients,
            final(self).links == old(self).links,
            final(self).trace == old(self).trace,
            final(self).rng == old(self).rng,
            final(self).config == old(self).config,
            // The event now sits at the end of the target's inbox; the
            // other kind's inboxes are untouched.
            (to matches NodeKind::Replica(rid) ==> final(self).inbox_client == old(self).inbox_client && exists|j: int|
                0 <= j < final(self).inbox_replica@.len() && (#[trigger] final(self).inbox_replica@[j]).0 == rid.0 && final(self).inbox_replica@[j].1@.len() >= 1
                    && final(self).inbox_replica@[j].1@.last() == ev),
            (to matches NodeKind::Client(cid) ==> final(self).inbox_replica == old(self).inbox_replica && exists|j: int|
                0 <= j < final(self).inbox_client@.len() && (#[trigger] final(self).inbox_client@[j]).0 == cid.0 && final(self).inbox_client@[j].1@.len() >= 1
                    && final(self).inbox_client@[j].1@.last() == ev),
    {
        match to {
            NodeKind::Replica(id) => {
                let ghost pre = self.inbox_replica@;
                let mut j: usize = 0;
                let n = self.inbox_replica.len();
                let mut found: Option<usize> = None;
                while j < n
                    invariant
                        j <= n,
                        n == self.inbox_replica@.len(),
                        found matches Some(x) ==> x < n && self.inbox_replica@[x as int].0 == id.0,
                        found is Some || forall|i: int|
                            0 <= i < j ==> (#[trigger] self.inbox_replica@[i]).0 != id.0,
                    decreases n - j,
                {
                    if self.inbox_replica[j].0 == id.0 {
                        found = Some(j);
                        break ;
                    }
                    j = j + 1;
                }
                match found {
                    Some(x) => {
                        let mut entry = self.inbox_replica.remove(x);
                        entry.1.push(ev);
                        self.inbox_replica.insert(x, entry);
                        proof {
                            let cur = self.inbox_replica@;
                            assert forall|j2: int, k: int|
                                0 <= j2 < cur.len() && 0 <= k < cur[j2].1@.len() implies self
                                .event_ok(#[trigger] cur[j2].1@[k]) by {
                                assert(cur[j2] == pre.remove(x as int).insert(
                                    x as int,
                                    cur[x as int],
                                )[j2]);
                                if j2 != x {
                                    assert(cur[j2] == pre[j2]);
                                    assert(old(self).event_ok(pre[j2].1@[k]));
                                } else {
                                    assert(cur[x as int].1@ == pre[x as int].1@.push(ev));
                                    if k < pre[x as int].1@.len() {
                                        assert(cur[x as int].1@[k] == pre[x as int].1@[k]);
                                        assert(old(self).event_ok(pre[x as int].1@[k]));
                                    } else {
                                        assert(cur[x as int].1@[k] == ev);
                                    }
                                }
                            }
                            assert(cur[x as int].0 == id.0 && cur[x as int].1@.len() >= 1
                                && cur[x as int].1@.last() == ev);
                        }
                    },
                    None => {
                        let mut q: Vec<Event> = Vec::new();
                        q.push(ev);
                        self.inbox_replica.push((id.0, q));
                        proof {
                            let cur = self.inbox_replica@;
                            assert(cur.drop_last() =~= pre);
                            assert(cur[cur.len() - 1].0 == id.0 && cur[cur.len() - 1].1@.len()
                                >= 1 && cur[cur.len() - 1].1@.last() == ev);
                            assert forall|j2: int, k: int|
                                0 <= j2 < cur.len() && 0 <= k < cur[j2].1@.len() implies self
                                .event_ok(#[trigger] cur[j2].1@[k]) by {
                                if j2 < cur.len() - 1 {
                                    assert(cur[j2] == pre[j2]);
                                    assert(old(self).event_ok(pre[j2].1@[k]));
                                } else {
                                    assert(cur[j2].1@[k] == ev);
                                }
                            }
                        }
                    },
                }
            },
            NodeKind::Client(id) => {
                let mut j: usize = 0;
                let n = self.inbox_client.len();
                let mut found: Option<usize> = None;
                while j < n
                    invariant
                        j <= n,
                        n == self.inbox_client@.len(),
                        found matches Some(x) ==> x < n && self.inbox_client@[x as int].0 == id.0,
                        found is Some || forall|i: int|
                            0 <= i < j ==> (#[trigger] self.inbox_client@[i]).0 != id.0,
                    decreases n - j,
                {
                    if self.inbox_client[j].0 == id.0 {
                        found = Some(j);
                        break ;
                    }
                    j = j + 1;
                }
                match found {
                    Some(x) => {
                        let ghost prec = self.inbox_client@;
                        let mut entry = self.inbox_client.remove(x);
                        entry.1.push(ev);
                        self.inbox_client.insert(x, entry);
                        proof {
                            let cur = self.inbox_client@;
                            assert(cur =~= prec.update(
                                x as int,
                                (prec[x as int].0, cur[x as int].1),
                            ));
                            assert(cur[x as int].1@ == prec[x as int].1@.push(ev));
                            assert(cur[x as int].0 == id.0 && cur[x as int].1@.len() >= 1
                                && cur[x as int].1@.last() == ev);
                        }
                    },
                    None => {
                        let mut q: Vec<Event> = Vec::new();
                        q.push(ev);
                        self.inbox_client.push((id.0, q));
                        proof {
                            let cur = self.inbox_client@;
                            assert(cur[cur.len() - 1].0 == id.0 && cur[cur.len() - 1].1@.len()
                                >= 1 && cur[cur.len() - 1].1@.last() == ev);
                        }
                    },
                }
            },
        }
    }

    /// Install one directional link, replacing any previous one.
    fn put_link(&mut self, from: NodeKind, to: NodeKind, link: Link)
        requires
            old(self).wf(),
        ensures
            final(self).wf(),
            final(self).processed == old(self).processed,
            final(self).now == old(self).now,
            final(self).wheel == old(self).wheel,
            final(self).replicas == old(self).replicas,
            final(self).clients == old(self).clients,
            final(self).trace == old(self).trace,
            final(self).rng == old(self).rng,
            final(self).config == old(self).config,
            Links::lookup(final(self).links.0@, from, to) == Some(link),
            forall|f: NodeKind, t: NodeKind|
                !(f == from && t == to) ==> #[trigger] Links::lookup(final(self).links.0@, f, t)
                    == Links::lookup(old(self).links.0@, f, t),
    {
        let ghost pre = self.links.0@;
        let mut j: usize = 0;
        let n = self.links.0.len();
        let mut found: Option<usize> = None;
        while j < n && found.is_none()
            invariant
                j <= n,
                n == self.links.0@.len(),
                match found {
                    Some(x) => x < n && self.links.0@[x as int].0 == from && self.links.0@[x
                        as int].1 == to && forall|i: int|
                        0 <= i < x ==> !((#[trigger] self.links.0@[i]).0 == from
                            && self.links.0@[i].1 == to),
                    None => forall|i: int|
                        0 <= i < j ==> !((#[trigger] self.links.0@[i]).0 == from
                            && self.links.0@[i].1 == to),
                },
            decreases n - j, (if found is None {
                1int
            } else {
                0int
            }),
        {
            if self.links.0[j].0 == from && self.links.0[j].1 == to {
                found = Some(j);
            } else {
                j = j + 1;
            }
        }
        match found {
            Some(x) => {
                proof {
                    assert(pre[x as int].0 == from && pre[x as int].1 == to);
                }
                self.links.0.remove(x);
                self.links.0.insert(x, (from, to, link));
                proof {
                    assert(self.links.0@ =~= pre.update(x as int, (from, to, link)));
                    lemma_lookup_update(pre, x as int, (from, to, link), from, to);
                    assert forall|f: NodeKind, t: NodeKind|
                        !(f == from && t == to) implies #[trigger] Links::lookup(
                        self.links.0@,
                        f,
                        t,
                    ) == Links::lookup(pre, f, t) by {
                        lemma_lookup_update(pre, x as int, (from, to, link), f, t);
                    }
                }
            },
            None => {
                self.links.0.push((from, to, link));
                proof {
                    lemma_lookup_push(pre, (from, to, link), from, to);
                    assert forall|f: NodeKind, t: NodeKind|
                        !(f == from && t == to) implies #[trigger] Links::lookup(
                        self.links.0@,
                        f,
                        t,
                    ) == Links::lookup(pre, f, t) by {
                        lemma_lookup_push(pre, (from, to, link), f, t);
                    }
                }
            },
        }
    }

    /// Install a link in both directions between two nodes.
    pub fn set_link(&mut self, src: NodeKind, dst: NodeKind, link: Link)
        requires
            old(self).wf(),
        ensures
            final(self).wf(),
            final(self).processed == old(self).processed,
            final(self).now == old(self).now,
            final(self).replicas == old(self).replicas,
            final(self).clients == old(self).clients,
            Links::lookup(final(self).links.0@, src, dst) == Some(link),
            Links::lookup(final(self).links.0@, dst, src) == Some(link),
            forall|f: NodeKind, t: NodeKind|
                !(f == src && t == dst) && !(f == dst && t == src)
                    ==> #[trigger] Links::lookup(final(self).links.0@, f, t) == Links::lookup(
                    old(self).links.0@,
                    f,
                    t,
                ),
    {
        self.put_link(src, dst, link);
        self.put_link(dst, src, link);
    }

    /// Send a message from one node to another through their link:
    /// silently discarded without an up link, lost with the link's drop
    /// probability, delayed by its base latency plus drawn jitter, and
    /// possibly duplicated.
    /// Hand one copy of `m` to `to`'s inbox and schedule its delivery.
    fn send_copy(&mut self, from: NodeKind, to: NodeKind, m: &Message, at: u64)
        requires
            old(self).wf(),
            old(self).message_from_primary(*m),
        ensures
            final(self).wf(),
            final(self).processed == old(self).processed,
            final(self).now == old(self).now,
            final(self).replicas == old(self).replicas,
            final(self).clients == old(self).clients,
            final(self).links == old(self).links,
            final(self).config == old(self).config,
    {
        let copy = dup_message(m);
        proof {
            assert(self.event_ok(Event::Msg(copy)));
        }
        self.push_inbox(to, Event::Msg(copy));
        self.schedule(at, WheelEvent::Deliver(to));
        let note = dup_message(m);
        self.trace.push(
            TraceEntry::Sent { at: self.now, from, to, deliver_at: at, message: note },
        );
    }

    /// Send a message from one node to another through their link:
    /// silently discarded without an up link, lost with the link's drop
    /// probability, delayed by its base latency plus drawn jitter, and
    /// possibly duplicated.
    fn send(&mut self, from: NodeKind, to: NodeKind, m: Message)
        requires
            old(self).wf(),
            old(self).message_from_primary(m),
        ensures
            final(self).wf(),
            final(self).processed == old(self).processed,
            final(self).now == old(self).now,
            final(self).replicas == old(self).replicas,
            final(self).clients == old(self).clients,
            final(self).links == old(self).links,
            final(self).config == old(self).config,
            // A missing or downed link drops the message silently.
            (match Links::lookup(old(self).links.0@, from, to) {
                Some(l) => !l.up,
                None => true,
            }) ==> *final(self) == *old(self),
    {
        let link = match self.links.get(from, to) {
            Some(l) => l,
            None => {
                return ;
            },
        };
        if !link.up {
            return ;
        }
        if link.drop_pct > 0 {
            let d = self.rng_next();
            if d % 100 < link.drop_pct as u64 {
                self.trace.push(TraceEntry::Dropped { at: self.now, from, to });
                return ;
            }
        }
        let jitter = if link.jitter_ms == 0 {
            0u64
        } else {
            let d = self.rng_next();
            if link.jitter_ms == u64::MAX {
                d
            } else {
                d % (link.jitter_ms + 1)
            }
        };
        let at = sat_add(sat_add(self.now, link.base_ms), jitter);
        self.send_copy(from, to, &m, at);
        if link.dup_pct > 0 {
            let d = self.rng_next();
            if d % 100 < link.dup_pct as u64 {
                let jitter2 = if link.jitter_ms == 0 {
                    0u64
                } else {
                    let d2 = self.rng_next();
                    if link.jitter_ms == u64::MAX {
                        d2
                    } else {
                        d2 % (link.jitter_ms + 1)
                    }
                };
                let at2 = sat_add(sat_add(self.now, link.base_ms), jitter2);
                self.send_copy(from, to, &m, at2);
            }
        }
    }

    /// Run one replica transition in place. This is the inductive heart
    /// of the simulator's safety invariant: the handler's contract plus
    /// the event's acceptability re-establish coherence, agreement with
    /// the primary, and the soundness of the effects handed back.
    #[verifier::rlimit(100)]
    fn with_replica_event(&mut self, rj: usize, ev: Event) -> (effects: Vec<Effect>)
        requires
            old(self).wf(),
            rj < old(self).replicas@.len(),
            old(self).event_ok(ev),
        ensures
            final(self).wf(),
            final(self).processed == old(self).processed,
            final(self).now == old(self).now,
            final(self).wheel == old(self).wheel,
            final(self).inbox_replica == old(self).inbox_replica,
            final(self).inbox_client == old(self).inbox_client,
            final(self).clients == old(self).clients,
            final(self).links == old(self).links,
            final(self).trace == old(self).trace,
            final(self).rng == old(self).rng,
            final(self).config == old(self).config,
            final(self).replicas@.len() == old(self).replicas@.len(),
            final(self).effects_ok(effects@),
    {
        let ghost pre = self.replicas@;
        let mut entry = self.replicas.remove(rj);
        let now = self.now;
        let ghost r_pre = entry.1;
        let ghost ev_g = ev;
        let effects = match ev {
            Event::Msg(m) => entry.1.on_message(m, now),
            Event::TimerFired(_) => entry.1.tick(now),
        };
        let ghost r_post = entry.1;
        self.replicas.insert(rj, entry);
        proof {
            let cur = self.replicas@;
            assert(cur.len() == pre.len());
            assert forall|i: int| 0 <= i < cur.len() && i != rj implies cur[i] == pre[i] by {
                assert(cur[i] == pre.remove(rj as int).insert(rj as int, cur[rj as int])[i]);
            }
            assert(cur[rj as int].0 == pre[rj as int].0);
            assert(cur[rj as int].1 == r_post);
            assert(cur[rj as int].1.wf());
            assert forall|i: int, j: int| 0 <= i < j < cur.len() implies cur[i].0 != cur[j].0 by {
                assert(pre[i].0 != pre[j].0);
            }
            // Identity and view are framed; logs only grew.
            assert(replicas_grow(pre, cur));
            assert forall|i: int|
                0 <= i < cur.len() implies ((#[trigger] cur[i]).1.is_primary_spec() <==> pre[
                i].1.is_primary_spec()) by {
                if i == rj {
                    assert(r_post.view_number == r_pre.view_number);
                    assert(r_post.configuration@ == r_pre.configuration@);
                    assert(r_post.replica_number == r_pre.replica_number);
                }
            }
            // Agreement is preserved for every (follower, primary) pair.
            assert forall|i: int, j: int|
                0 <= i < cur.len() && 0 <= j < cur.len() && (
                #[trigger] cur[i]).1.is_primary_spec() implies crate::replica::follows(
                &(#[trigger] cur[j]).1,
                &cur[i].1,
            ) by {
                assert(pre[i].1.is_primary_spec());
                assert(crate::replica::follows(&pre[j].1, &pre[i].1));
                if i == rj as int && j == rj as int {
                    assert(crate::replica::follows(&r_post, &r_post));
                } else if i == rj as int {
                    crate::replica::lemma_agreement_primary_step(&pre[j].1, &r_pre, &r_post);
                } else if j == rj as int {
                    match ev_g {
                        Event::Msg(m) => {
                            match m {
                                Message::Prepare {
                                    view_number,
                                    op_number,
                                    commit_number,
                                    request,
                                } => {
                                    assert(old(self).message_from_primary(m));
                                    assert(crate::replica::prepare_from(
                                        &pre[i].1,
                                        view_number,
                                        op_number,
                                        request,
                                    ));
                                    crate::replica::lemma_agreement_step(
                                        &r_pre,
                                        &r_post,
                                        &pre[i].1,
                                        view_number,
                                        op_number,
                                        commit_number,
                                        request,
                                        now,
                                        effects@,
                                    );
                                },
                                Message::Request(rq) => {
                                    if r_pre.is_primary_spec() {
                                        lemma_primary_unique_in(pre, i, rj as int);
                                    }
                                    assert(r_post.log == r_pre.log);
                                    assert(r_post.op_number == r_pre.op_number);
                                },
                                _ => {
                                    assert(r_post.log == r_pre.log);
                                    assert(r_post.op_number == r_pre.op_number);
                                },
                            }
                        },
                        Event::TimerFired(_) => {
                            assert(r_post.log == r_pre.log);
                            assert(r_post.op_number == r_pre.op_number);
                        },
                    }
                }
            }
            // Events elsewhere stay acceptable: logs only grew.
            lemma_events_stable(old(self), self);
            // Progress still witnesses a primary.
            assert(self.progress_implies_primary()) by {
                if forall|i: int|
                    0 <= i < cur.len() ==> !(#[trigger] cur[i]).1.is_primary_spec() {
                    assert forall|i: int| 0 <= i < cur.len() implies (
                    #[trigger] cur[i]).1.op_number == 0 by {
                        assert(!pre[i].1.is_primary_spec());
                        assert(pre[i].1.op_number == 0);
                        if i == rj as int {
                            match ev_g {
                                Event::Msg(m) => {
                                    match m {
                                        Message::Prepare {
                                            view_number,
                                            op_number,
                                            commit_number,
                                            request,
                                        } => {
                                            if crate::replica::Replica::<
                                                KvState,
                                            >::prepare_acceptable(
                                                &r_pre,
                                                view_number,
                                                op_number,
                                                request,
                                            ) {
                                                // An accepted prepare witnesses a primary.
                                                assert(old(self).message_from_primary(m));
                                                let w = choose|w: int|
                                                    0 <= w < pre.len() && (
                                                    #[trigger] pre[w]).1.is_primary_spec();
                                                assert(cur[w].1.is_primary_spec());
                                                assert(false);
                                            } else {
                                                assert(r_post == r_pre);
                                            }
                                        },
                                        Message::Request(rq) => {
                                            assert(r_post.op_number == r_pre.op_number);
                                        },
                                        _ => {
                                            assert(r_post.op_number == r_pre.op_number);
                                        },
                                    }
                                },
                                Event::TimerFired(_) => {
                                    assert(r_post.op_number == r_pre.op_number);
                                },
                            }
                        }
                    }
                }
            }
            // The effects the handler returned are sound: any Prepare
            // among them is the (unique) primary's own.
            assert(crate::replica::emits_own_prepares(&r_post, effects@));
            assert forall|i2: int| 0 <= i2 < effects@.len() implies match #[trigger] effects@[i2] {
                Effect::Send { message, .. } => self.message_from_primary(message),
                Effect::Broadcast { message, .. } => self.message_from_primary(message),
                Effect::Reply { message, .. } => self.message_from_primary(message),
                _ => true,
            } by {
                let claim = |message: Message|
                    {
                        crate::replica::prepare_claim(&r_post, message)
                            ==> self.message_from_primary(message)
                    };
                assert forall|message: Message|
                    crate::replica::prepare_claim(&r_post, message) implies self
                    .message_from_primary(message) by {
                    match message {
                        Message::Prepare { view_number, op_number, commit_number, request } => {
                            assert(r_post.is_primary_spec());
                            assert(cur[rj as int].1.is_primary_spec());
                            assert forall|p: int|
                                0 <= p < cur.len() && (#[trigger] cur[p]).1.is_primary_spec()
                                implies crate::replica::prepare_from(
                                &cur[p].1,
                                view_number,
                                op_number,
                                request,
                            ) by {
                                lemma_primary_unique_in(cur, p, rj as int);
                            }
                        },
                        _ => {},
                    }
                }
            }
        }
        effects
    }

    /// Enact one batch of sound effects produced by the replica `from`.
    #[verifier::rlimit(100)]
    fn apply_effects(&mut self, from: NodeId, effects: Vec<Effect>)
        requires
            old(self).wf(),
            old(self).effects_ok(effects@),
        ensures
            final(self).wf(),
            final(self).processed == old(self).processed,
            final(self).now == old(self).now,
            final(self).config == old(self).config,
            final(self).clients == old(self).clients,
            final(self).replicas@.len() == old(self).replicas@.len(),
    {
        let mut effects = effects;
        while effects.len() > 0
            invariant
                self.wf(),
                self.now == old(self).now,
                self.config == old(self).config,
                self.clients == old(self).clients,
                self.replicas@.len() == old(self).replicas@.len(),
                self.effects_ok(effects@),
                self.processed == old(self).processed,
            decreases effects@.len(),
        {
            let ghost all = effects@;
            let eff = effects.remove(0);
            proof {
                assert forall|i: int| 0 <= i < effects@.len() implies match #[trigger] effects@[i] {
                    Effect::Send { message, .. } => self.message_from_primary(message),
                    Effect::Broadcast { message, .. } => self.message_from_primary(message),
                    Effect::Reply { message, .. } => self.message_from_primary(message),
                    _ => true,
                } by {
                    assert(effects@[i] == all[i + 1]);
                }
            }
            match eff {
                Effect::Send { to, message } => {
                    let ghost before = *self;
                    self.send(
                        NodeKind::Replica(from),
                        NodeKind::Replica(NodeId(to)),
                        message,
                    );
                    proof {
                        lemma_grow_of_equal(before.replicas@);
                        lemma_effects_stable(&before, self, effects@);
                    }
                },
                Effect::Reply { client_id, message } => {
                    let ghost before = *self;
                    self.send(
                        NodeKind::Replica(from),
                        NodeKind::Client(NodeId(client_id)),
                        message,
                    );
                    proof {
                        lemma_grow_of_equal(before.replicas@);
                        lemma_effects_stable(&before, self, effects@);
                    }
                },
                Effect::Broadcast { to, message } => {
                    let mut i: usize = 0;
                    while i < to.len()
                        invariant
                            self.wf(),
                            self.now == old(self).now,
                            self.config == old(self).config,
                            self.clients == old(self).clients,
                            self.replicas@.len() == old(self).replicas@.len(),
                            self.effects_ok(effects@),
                            self.message_from_primary(message),
                            self.processed == old(self).processed,
                            i <= to@.len(),
                        decreases to@.len() - i,
                    {
                        let rid = to[i];
                        if rid != from.0 {
                            let copy = dup_message(&message);
                            proof {
                                assert(self.message_from_primary(copy));
                            }
                            let ghost before = *self;
                            self.send(NodeKind::Replica(from), NodeKind::Replica(NodeId(rid)), copy);
                            proof {
                                lemma_grow_of_equal(before.replicas@);
                                lemma_effects_stable(&before, self, effects@);
                                lemma_events_stable(&before, self);
                                assert(before.message_from_primary(message));
                            }
                        }
                        i = i + 1;
                    }
                },
                Effect::SetTimer { kind, at } => {
                    if !self.config.disable_timers {
                        let ghost before = *self;
                        self.schedule(at, WheelEvent::FireTimer { node: from, kind });
                        self.trace.push(
                            TraceEntry::TimerSet { at: self.now, node: from, kind, fire_at: at },
                        );
                        proof {
                            lemma_grow_of_equal(before.replicas@);
                            lemma_effects_stable(&before, self, effects@);
                        }
                    }
                },
                Effect::CancelTimer { .. } => {
                    // The wheel is never scanned: a firing checks the
                    // replica's current deadline and no-ops when stale.
                },
                Effect::ApplyCommitted { op_number } => {
                    match self.find_replica(from.0) {
                        Some(rj) => {
                            let ghost before = *self;
                            let ghost pre = self.replicas@;
                            let mut entry = self.replicas.remove(rj);
                            let _ = entry.1.apply_committed(op_number);
                            self.replicas.insert(rj, entry);
                            proof {
                                let cur = self.replicas@;
                                assert forall|i: int|
                                    0 <= i < cur.len() && i != rj implies cur[i] == pre[i] by {
                                    assert(cur[i] == pre.remove(rj as int).insert(
                                        rj as int,
                                        cur[rj as int],
                                    )[i]);
                                }
                                assert forall|i: int, j: int|
                                    0 <= i < j < cur.len() implies cur[i].0 != cur[j].0 by {
                                    assert(pre[i].0 != pre[j].0);
                                }
                                assert(cur[rj as int].0 == pre[rj as int].0);
                                assert(cur[rj as int].1.wf());
                                // The state machine ran, but the log,
                                // op number, view and identity did not
                                // change: agreement and acceptability
                                // carry over unchanged.
                                let a = pre[rj as int].1;
                                let b = cur[rj as int].1;
                                assert(b.log == a.log);
                                assert(b.op_number == a.op_number);
                                assert(b.view_number == a.view_number);
                                assert(b.configuration@ == a.configuration@);
                                assert(b.replica_number == a.replica_number);
                                assert(replicas_grow(pre, cur)) by {
                                    lemma_grow_of_equal(pre);
                                    assert(a.log@.is_prefix_of(b.log@));
                                }
                                assert forall|i: int|
                                    0 <= i < cur.len() implies ((
                                #[trigger] cur[i]).1.is_primary_spec() <==> pre[
                                i].1.is_primary_spec()) by {}
                                assert forall|i: int, j: int|
                                    0 <= i < cur.len() && 0 <= j < cur.len() && (
                                    #[trigger] cur[i]).1.is_primary_spec() implies
                                    crate::replica::follows(
                                    &(#[trigger] cur[j]).1,
                                    &cur[i].1,
                                ) by {
                                    assert(pre[i].1.is_primary_spec());
                                    assert(crate::replica::follows(&pre[j].1, &pre[i].1));
                                }
                                lemma_events_stable(&before, self);
                                assert(self.progress_implies_primary()) by {
                                    if forall|i: int|
                                        0 <= i < cur.len() ==> !(
                                        #[trigger] cur[i]).1.is_primary_spec() {
                                        assert forall|i: int| 0 <= i < cur.len() implies (
                                        #[trigger] cur[i]).1.op_number == 0 by {
                                            assert(!pre[i].1.is_primary_spec());
                                            assert(pre[i].1.op_number == 0);
                                        }
                                    }
                                }
                                lemma_effects_stable(&before, self, effects@);
                            }
                            self.trace.push(
                                TraceEntry::Applied { at: self.now, node: from, op_number },
                            );
                        },
                        None => {},
                    }
                },
            }
        }
    }

    /// The stored replica is the given one with its role's initial
    /// timer armed at `now` (or untouched when timers are disabled).
    pub open spec fn is_bootstrapped_of(
        stored: Replica<KvState>,
        r: Replica<KvState>,
        now: u64,
        disable_timers: bool,
    ) -> bool {
        &&& stored.configuration@ == r.configuration@
        &&& stored.replica_number == r.replica_number
        &&& stored.epoch == r.epoch
        &&& stored.view_number == r.view_number
        &&& stored.status == r.status
        &&& stored.op_number == r.op_number
        &&& stored.commit_number == r.commit_number
        &&& stored.applied_number == r.applied_number
        &&& stored.log == r.log
        &&& stored.client_table == r.client_table
        &&& stored.op_ack_table == r.op_ack_table
        &&& stored.state_machine == r.state_machine
        &&& stored.commit_quorums == r.commit_quorums
        &&& stored.timeout_primary_idle_commit == r.timeout_primary_idle_commit
        &&& stored.timeout_backup_watchdog == r.timeout_backup_watchdog
        &&& (if disable_timers {
            stored.next_primary_idle_commit == r.next_primary_idle_commit
                && stored.next_backup_watchdog == r.next_backup_watchdog
        } else if r.is_primary_spec() {
            stored.next_primary_idle_commit == Some(
                spec_sat_add(now, r.timeout_primary_idle_commit),
            ) && stored.next_backup_watchdog == r.next_backup_watchdog
        } else {
            stored.next_backup_watchdog == Some(spec_sat_add(now, r.timeout_backup_watchdog))
                && stored.next_primary_idle_commit == r.next_primary_idle_commit
        })
    }

    /// Add a fresh replica — one with an empty log, in view 0, keyed by
    /// its own number, sized like the cluster — and, unless timers are
    /// disabled, let it arm its role's initial timer.
    #[verifier::rlimit(100)]
    pub fn add_replica(&mut self, id: NodeId, r: Replica<KvState>)
        requires
            old(self).wf(),
            r.wf(),
            r.view_number == 0,
            r.op_number == 0,
            id.0 == r.replica_number,
            forall|i: int|
                0 <= i < old(self).replicas@.len() ==> (#[trigger] old(self).replicas@[i]).0
                    != id.0,
            forall|i: int|
                0 <= i < old(self).replicas@.len() ==> (#[trigger] old(self).replicas@[i]).1.configuration@.len() == r.configuration@.len(),
        ensures
            final(self).wf(),
            final(self).processed == old(self).processed,
            final(self).now == old(self).now,
            final(self).clients == old(self).clients,
            final(self).links == old(self).links,
            final(self).rng == old(self).rng,
            final(self).config == old(self).config,
            // The table gains exactly this replica, after it armed its
            // role's initial timer; everything else already there stays.
            final(self).replicas@.len() == old(self).replicas@.len() + 1,
            final(self).replicas@.subrange(0, old(self).replicas@.len() as int) == old(self).replicas@,
            final(self).replicas@.last().0 == id.0,
            Self::is_bootstrapped_of(
                final(self).replicas@.last().1,
                r,
                old(self).now,
                old(self).config.disable_timers,
            ),
            // Its inbox exists,
            exists|j: int|
                0 <= j < final(self).inbox_replica@.len() && (#[trigger] final(self).inbox_replica@[j]).0 == id.0,
            // and, with timers on, its initial firing is on the wheel.
            !old(self).config.disable_timers ==> exists|j: int|
                {
                    let at = spec_sat_add(
                        old(self).now,
                        if r.is_primary_spec() {
                            r.timeout_primary_idle_commit
                        } else {
                            r.timeout_backup_watchdog
                        },
                    );
                    let kind = if r.is_primary_spec() {
                        TimerKind::PrimaryIdleCommit
                    } else {
                        TimerKind::BackupWatchdog
                    };
                    &&& 0 <= j < final(self).wheel@.len()
                    &&& (#[trigger] final(self).wheel@[j]).0 == Self::clamp_time(
                        old(self).now,
                        at,
                    )
                    &&& final(self).wheel@[j].1@.len() >= 1
                    &&& final(self).wheel@[j].1@.last() == (WheelEvent::FireTimer {
                        node: id,
                        kind,
                    })
                },
    {
        let mut r = r;
        let ghost r0 = r;
        let effects = if !self.config.disable_timers {
            r.bootstrap(self.now)
        } else {
            Vec::new()
        };
        let ghost r2 = r;
        let ghost pre = self.replicas@;
        let ghost pre_sim = *self;
        self.replicas.push((id.0, r));
        proof {
            let cur = self.replicas@;
            assert(cur.drop_last() =~= pre);
            assert(cur.len() == pre.len() + 1);
            assert forall|i: int| 0 <= i < pre.len() implies cur[i] == pre[i] by {}
            assert(cur[pre.len() as int] == (id.0, r2));
            assert(r2.view_number == 0 && r2.op_number == 0 && r2.replica_number == id.0);
            assert(r2.log@.len() == 0);
            assert forall|a: int, b: int| 0 <= a < b < cur.len() implies cur[a].0 != cur[b].0 by {
                if b < cur.len() - 1 {
                    assert(pre[a].0 != pre[b].0);
                } else {
                    assert(pre[a].0 != id.0);
                }
            }
            // If the newcomer is the primary, nothing has happened yet:
            // no earlier primary (its key would clash), hence no
            // progress and no prepares in flight.
            if r2.is_primary_spec() {
                let n = r2.n_replicas();
                assert(0int % n == 0) by (nonlinear_arith)
                    requires
                        n >= 1,
                ;
                assert(r2.replica_number == 0);
                assert forall|i: int|
                    0 <= i < pre.len() implies !(#[trigger] pre[i]).1.is_primary_spec() by {
                    if pre[i].1.is_primary_spec() {
                        let m = pre[i].1.n_replicas();
                        assert(0int % m == 0) by (nonlinear_arith)
                            requires
                                m >= 1,
                        ;
                        assert(pre[i].1.replica_number == 0);
                        assert(pre[i].0 == 0);
                        assert(pre[i].0 != id.0);
                        assert(false);
                    }
                }
                assert forall|i: int| 0 <= i < pre.len() implies (#[trigger] pre[i]).1.op_number
                    == 0 by {}
            }
            // Agreement holds for every pair of the extended table.
            assert forall|i: int, j: int|
                0 <= i < cur.len() && 0 <= j < cur.len() && (
                #[trigger] cur[i]).1.is_primary_spec() implies crate::replica::follows(
                &(#[trigger] cur[j]).1,
                &cur[i].1,
            ) by {
                if i < pre.len() && j < pre.len() {
                    assert(crate::replica::follows(&pre[j].1, &pre[i].1));
                } else if i == pre.len() as int && j == pre.len() as int {
                } else if i == pre.len() as int {
                    // The newcomer is primary: everything stands at 0.
                    assert(cur[j].1.op_number == 0);
                } else {
                    // The newcomer follows any primary: it has no log.
                    assert(cur[j].1.op_number == 0);
                    assert(cur[j].1.view_number == 0 && cur[i].1.view_number == 0);
                }
            }
            // Waiting events stay acceptable.
            assert forall|j: int, k: int|
                0 <= j < self.inbox_replica@.len() && 0 <= k
                    < self.inbox_replica@[j].1@.len() implies self.event_ok(
                #[trigger] self.inbox_replica@[j].1@[k],
            ) by {
                let e = self.inbox_replica@[j].1@[k];
                assert(pre_sim.event_ok(e));
                match e {
                    Event::Msg(m) => {
                        match m {
                            Message::Prepare {
                                view_number,
                                op_number,
                                commit_number,
                                request,
                            } => {
                                let w = choose|w: int|
                                    0 <= w < pre.len() && (#[trigger] pre[w]).1.is_primary_spec();
                                assert(cur[w].1.is_primary_spec());
                                assert forall|p: int|
                                    0 <= p < cur.len() && (#[trigger] cur[p]).1.is_primary_spec()
                                    implies crate::replica::prepare_from(
                                    &cur[p].1,
                                    view_number,
                                    op_number,
                                    request,
                                ) by {
                                    if p < pre.len() {
                                        assert(crate::replica::prepare_from(
                                            &pre[p].1,
                                            view_number,
                                            op_number,
                                            request,
                                        ));
                                    } else {
                                        // A primary newcomer excludes any
                                        // earlier primary, and with it this
                                        // prepare.
                                        assert(false);
                                    }
                                }
                            },
                            _ => {},
                        }
                    },
                    _ => {},
                }
            }
            assert(self.progress_implies_primary()) by {
                if forall|i: int|
                    0 <= i < cur.len() ==> !(#[trigger] cur[i]).1.is_primary_spec() {
                    assert forall|i: int| 0 <= i < cur.len() implies (
                    #[trigger] cur[i]).1.op_number == 0 by {
                        if i < pre.len() {
                            assert(!pre[i].1.is_primary_spec());
                            assert(pre[i].1.op_number == 0);
                        }
                    }
                }
            }
        }
        let ghost mid_sim = *self;
        let mut has_inbox = false;
        let mut j: usize = 0;
        while j < self.inbox_replica.len()
            invariant
                j <= self.inbox_replica@.len(),
                has_inbox ==> exists|i: int|
                    0 <= i < self.inbox_replica@.len() && (#[trigger] self.inbox_replica@[i]).0
                        == id.0,
            decreases self.inbox_replica@.len() - j,
        {
            if self.inbox_replica[j].0 == id.0 {
                has_inbox = true;
            }
            j = j + 1;
        }
        if !has_inbox {
            let ghost pre_inbox = self.inbox_replica@;
            self.inbox_replica.push((id.0, Vec::new()));
            proof {
                let curb = self.inbox_replica@;
                assert(curb[curb.len() - 1].0 == id.0);
                assert(exists|i: int|
                    0 <= i < self.inbox_replica@.len() && (#[trigger] self.inbox_replica@[i]).0
                        == id.0);
                assert(curb.drop_last() =~= pre_inbox);
                assert(self.replicas@ == mid_sim.replicas@);
                assert forall|j2: int, k: int|
                    0 <= j2 < curb.len() && 0 <= k < curb[j2].1@.len() implies self.event_ok(
                    #[trigger] curb[j2].1@[k],
                ) by {
                    if j2 < curb.len() - 1 {
                        assert(curb[j2] == pre_inbox[j2]);
                        assert(mid_sim.event_ok(pre_inbox[j2].1@[k]));
                        lemma_grow_of_equal(mid_sim.replicas@);
                        lemma_events_stable(&mid_sim, self);
                    } else {
                        assert(curb[j2].1@.len() == 0);
                    }
                }
            }
        }
        // Enact the bootstrap effect directly: it is exactly one
        // `SetTimer`, which becomes a firing on the wheel.
        let mut effects = effects;
        if effects.len() > 0 {
            let eff = effects.remove(0);
            match eff {
                Effect::SetTimer { kind, at } => {
                    let ghost before = self.inbox_replica@;
                    proof {
                        assert(kind == (if r0.is_primary_spec() {
                            TimerKind::PrimaryIdleCommit
                        } else {
                            TimerKind::BackupWatchdog
                        }));
                        assert(at == spec_sat_add(
                            pre_sim.now,
                            if r0.is_primary_spec() {
                                r0.timeout_primary_idle_commit
                            } else {
                                r0.timeout_backup_watchdog
                            },
                        ));
                        assert(Self::clamp_time(pre_sim.now, at) == at);
                    }
                    self.schedule(at, WheelEvent::FireTimer { node: id, kind });
                    let ghost wz = self.wheel@;
                    self.trace.push(
                        TraceEntry::TimerSet { at: self.now, node: id, kind, fire_at: at },
                    );
                    proof {
                        assert(self.inbox_replica@ == before);
                        let w = choose|i: int|
                            0 <= i < before.len() && (#[trigger] before[i]).0 == id.0;
                        assert(self.inbox_replica@[w].0 == id.0);
                        assert(self.wheel@ == wz);
                        let b = choose|j: int|
                            0 <= j < wz.len() && (#[trigger] wz[j]).0 == at && wz[j].1@.len() >= 1
                                && wz[j].1@.last() == (WheelEvent::FireTimer { node: id, kind });
                        assert(self.wheel@[b].0 == at && self.wheel@[b].1@.last()
                            == (WheelEvent::FireTimer { node: id, kind }));
                    }
                },
                _ => {},
            }
        }
    }

    /// Add (or replace) a client, with an inbox of its own.
    #[verifier::rlimit(100)]
    #[verifier::spinoff_prover]
    pub fn add_client(&mut self, id: NodeId, c: Client)
        requires
            old(self).wf(),
            c.wf(),
        ensures
            final(self).wf(),
            final(self).processed == old(self).processed,
            final(self).now == old(self).now,
            final(self).replicas == old(self).replicas,
            final(self).wheel == old(self).wheel,
            final(self).links == old(self).links,
            final(self).trace == old(self).trace,
            final(self).rng == old(self).rng,
            final(self).config == old(self).config,
            // Exactly this client is stored under its id; every client
            // with another id is kept as it was, and nothing else joins.
            final(self).clients@.last() == (id.0, c),
            final(self).clients@.len() <= old(self).clients@.len() + 1,
            forall|i: int|
                0 <= i < final(self).clients@.len() && (#[trigger] final(self).clients@[i]).0
                    != id.0 ==> exists|i0: int|
                    0 <= i0 < old(self).clients@.len() && old(self).clients@[i0] == final(self).clients@[i],
            forall|i0: int|
                0 <= i0 < old(self).clients@.len() && (#[trigger] old(self).clients@[i0]).0
                    != id.0 ==> exists|i: int|
                    0 <= i < final(self).clients@.len() && final(self).clients@[i] == old(self).clients@[i0],
            exists|j: int|
                0 <= j < final(self).inbox_client@.len() && (#[trigger] final(self).inbox_client@[j]).0 == id.0,
    {
        let ghost pre = self.clients@;
        let ghost mut gj: int = -1;
        match self.find_client_idx(id.0) {
            Some(j) => {
                self.clients.remove(j);
                proof {
                    gj = j as int;
                    assert forall|a: int|
                        0 <= a < self.clients@.len() implies self.clients@[a] == (if a < gj {
                        pre[a]
                    } else {
                        pre[a + 1]
                    }) by {
                        assert(self.clients@[a] == pre.remove(j as int)[a]);
                    }
                    assert forall|a: int, b: int|
                        0 <= a < b < self.clients@.len() implies self.clients@[a].0
                        != self.clients@[b].0 by {
                        let oa = if a < gj { a } else { a + 1 };
                        let ob = if b < gj { b } else { b + 1 };
                        assert(pre[oa].0 != pre[ob].0);
                    }
                    assert forall|a: int|
                        0 <= a < self.clients@.len() implies (
                    #[trigger] self.clients@[a]).1.wf() by {
                        let oa = if a < gj { a } else { a + 1 };
                        assert(self.clients@[a] == pre[oa]);
                    }
                    assert forall|a: int|
                        0 <= a < self.clients@.len() implies (#[trigger] self.clients@[a]).0
                        != id.0 by {
                        let oa = if a < gj { a } else { a + 1 };
                        assert(self.clients@[a] == pre[oa]);
                        if oa != gj {
                            assert(pre[oa].0 != pre[j as int].0);
                        }
                    }
                }
            },
            None => {},
        }
        let ghost mid = self.clients@;
        self.clients.push((id.0, c));
        proof {
            let cur = self.clients@;
            assert(cur.drop_last() =~= mid);
            assert forall|a: int, b: int| 0 <= a < b < cur.len() implies cur[a].0 != cur[b].0 by {
                if b < cur.len() - 1 {
                    assert(cur[a] == mid[a]);
                    assert(cur[b] == mid[b]);
                } else {
                    assert(cur[a] == mid[a]);
                }
            }
            // Every other client kept its entry; the last one is new.
            assert forall|i0: int|
                0 <= i0 < pre.len() && (#[trigger] pre[i0]).0 != id.0 implies exists|i: int|
                0 <= i < cur.len() && cur[i] == pre[i0] by {
                let i = if gj >= 0 && i0 > gj {
                    i0 - 1
                } else {
                    i0
                };
                assert(mid[i] == pre[i0]);
                assert(cur[i] == pre[i0]);
            }
            assert forall|i: int|
                0 <= i < cur.len() && (#[trigger] cur[i]).0 != id.0 implies exists|i0: int|
                0 <= i0 < pre.len() && pre[i0] == cur[i] by {
                assert(i < cur.len() - 1);
                assert(cur[i] == mid[i]);
                let i0 = if gj >= 0 && i >= gj {
                    i + 1
                } else {
                    i
                };
                assert(pre[i0] == mid[i]);
            }
        }
        let mut has_inbox = false;
        let mut j: usize = 0;
        while j < self.inbox_client.len()
            invariant
                j <= self.inbox_client@.len(),
                has_inbox ==> exists|i: int|
                    0 <= i < self.inbox_client@.len() && (#[trigger] self.inbox_client@[i]).0
                        == id.0,
            decreases self.inbox_client@.len() - j,
        {
            if self.inbox_client[j].0 == id.0 {
                has_inbox = true;
            }
            j = j + 1;
        }
        if !has_inbox {
            self.inbox_client.push((id.0, Vec::new()));
            proof {
                let curb = self.inbox_client@;
                assert(curb[curb.len() - 1].0 == id.0);
                assert(exists|i: int|
                    0 <= i < self.inbox_client@.len() && (#[trigger] self.inbox_client@[i]).0
                        == id.0);
            }
        }
    }

    /// Let a known client issue `op` now; `false` when no such client
    /// exists.
    pub fn start_client_request(&mut self, client_id: NodeId, op: Op) -> (r: bool)
        requires
            old(self).wf(),
        ensures
            final(self).wf(),
            final(self).now == old(self).now,
            r == exists|i: int|
                0 <= i < old(self).clients@.len() && (#[trigger] old(self).clients@[i]).0
                    == client_id.0,
            // A known client's operation is scheduled as a think event
            // at the current time; an unknown client changes nothing.
            r ==> exists|j: int|
                0 <= j < final(self).wheel@.len() && (#[trigger] final(self).wheel@[j]).0 == old(self).now && final(self).wheel@[j].1@.len() >= 1 && final(self).wheel@[j].1@.last()
                    == (WheelEvent::ClientThink { client_id, op }),
            !r ==> *final(self) == *old(self),
    {
        match self.find_client_idx(client_id.0) {
            Some(_) => {
                self.schedule(self.now, WheelEvent::ClientThink { client_id, op });
                true
            },
            None => false,
        }
    }

    /// Pop the head of a replica's inbox and feed it to the replica.
    fn deliver_to_replica(&mut self, dst: NodeId)
        requires
            old(self).wf(),
        ensures
            final(self).wf(),
            final(self).processed == old(self).processed,
            final(self).now == old(self).now,
            final(self).config == old(self).config,
    {
        let mut j: usize = 0;
        let n = self.inbox_replica.len();
        let mut found: Option<usize> = None;
        while j < n
            invariant
                j <= n,
                n == self.inbox_replica@.len(),
                found matches Some(x) ==> x < n,
            decreases n - j,
        {
            if self.inbox_replica[j].0 == dst.0 {
                found = Some(j);
                break ;
            }
            j = j + 1;
        }
        let jq = match found {
            Some(x) => x,
            None => {
                return ;
            },
        };
        let mut entry = self.inbox_replica.remove(jq);
        if entry.1.len() == 0 {
            self.inbox_replica.insert(jq, entry);
            return ;
        }
        let ev = entry.1.remove(0);
        self.inbox_replica.insert(jq, entry);
        let rj = match self.find_replica(dst.0) {
            Some(x) => x,
            None => {
                return ;
            },
        };
        let effects = self.with_replica_event(rj, ev);
        self.trace.push(TraceEntry::Delivered { at: self.now, to: NodeKind::Replica(dst) });
        self.apply_effects(dst, effects);
    }

    /// Pop the head of a client's inbox and feed it to the client.
    fn deliver_to_client(&mut self, dst: NodeId)
        requires
            old(self).wf(),
        ensures
            final(self).wf(),
            final(self).processed == old(self).processed,
            final(self).now == old(self).now,
            final(self).config == old(self).config,
    {
        let mut j: usize = 0;
        let n = self.inbox_client.len();
        let mut found: Option<usize> = None;
        while j < n
            invariant
                j <= n,
                n == self.inbox_client@.len(),
                found matches Some(x) ==> x < n,
            decreases n - j,
        {
            if self.inbox_client[j].0 == dst.0 {
                found = Some(j);
                break ;
            }
            j = j + 1;
        }
        let jq = match found {
            Some(x) => x,
            None => {
                return ;
            },
        };
        let mut entry = self.inbox_client.remove(jq);
        if entry.1.len() == 0 {
            self.inbox_client.insert(jq, entry);
            return ;
        }
        let ev = entry.1.remove(0);
        self.inbox_client.insert(jq, entry);
        let cj = match self.find_client_idx(dst.0) {
            Some(x) => x,
            None => {
                return ;
            },
        };
        let ghost pre = self.clients@;
        let mut centry = self.clients.remove(cj);
        centry.1.on_message(ev);
        self.clients.insert(cj, centry);
        proof {
            let cur = self.clients@;
            assert forall|i: int, j2: int| 0 <= i < j2 < cur.len() implies cur[i].0
                != cur[j2].0 by {
                assert(cur[i] == pre.remove(cj as int).insert(cj as int, cur[cj as int])[i]);
                assert(cur[j2] == pre.remove(cj as int).insert(cj as int, cur[cj as int])[j2]);
                assert(pre[i].0 != pre[j2].0);
            }
            assert forall|i: int| 0 <= i < cur.len() implies (#[trigger] cur[i]).1.wf() by {
                if i != cj {
                    assert(cur[i] == pre.remove(cj as int).insert(cj as int, cur[cj as int])[i]);
                    assert(cur[i] == pre[i]);
                }
            }
        }
        self.trace.push(TraceEntry::Delivered { at: self.now, to: NodeKind::Client(dst) });
    }

    /// A due timer: deliver it if it still matches the replica's current
    /// deadline for that kind, discard it otherwise (cancellation and
    /// re-arming never scan the wheel).
    /// The deadline a replica currently holds for a timer kind.
    pub open spec fn deadline_of(r: &Replica<KvState>, kind: TimerKind) -> Option<u64> {
        match kind {
            TimerKind::PrimaryIdleCommit => r.next_primary_idle_commit,
            TimerKind::BackupWatchdog => r.next_backup_watchdog,
        }
    }

    fn fire_timer(&mut self, node: NodeId, kind: TimerKind)
        requires
            old(self).wf(),
        ensures
            final(self).wf(),
            final(self).processed == old(self).processed,
            final(self).now == old(self).now,
            final(self).config == old(self).config,
            // No such replica: nothing happens.
            (forall|i: int|
                0 <= i < old(self).replicas@.len() ==> (#[trigger] old(self).replicas@[i]).0
                    != node.0) ==> *final(self) == *old(self),
            // Otherwise the firing is checked against the replica's
            // current deadline: a stale one is discarded, a due one is
            // delivered as a timer event with its own delivery slot.
            forall|i: int|
                0 <= i < old(self).replicas@.len() && (#[trigger] old(self).replicas@[i]).0
                    == node.0 ==> {
                    let dl = Self::deadline_of(&old(self).replicas@[i].1, kind);
                    &&& (!(dl matches Some(t) && t <= old(self).now) ==> *final(self) == *old(self))
                    &&& ((dl matches Some(t) && t <= old(self).now) ==> {
                        &&& final(self).trace@ == old(self).trace@.push(
                            TraceEntry::TimerFired { at: old(self).now, node, kind },
                        )
                        &&& (exists|j: int|
                            0 <= j < final(self).inbox_replica@.len() && (#[trigger] final(self).inbox_replica@[j]).0 == node.0 && final(self).inbox_replica@[j].1@.len() >= 1 && final(self).inbox_replica@[j].1@.last() == Event::TimerFired(kind))
                        &&& (exists|j: int|
                            0 <= j < final(self).wheel@.len() && (#[trigger] final(self).wheel@[j]).0 == old(self).now && final(self).wheel@[j].1@.len() >= 1
                                && final(self).wheel@[j].1@.last() == (WheelEvent::Deliver(
                                NodeKind::Replica(node),
                            )))
                    })
                },
    {
        let rj = match self.find_replica(node.0) {
            Some(x) => x,
            None => {
                return ;
            },
        };
        let deadline = match kind {
            TimerKind::PrimaryIdleCommit => self.replicas[rj].1.next_primary_idle_commit,
            TimerKind::BackupWatchdog => self.replicas[rj].1.next_backup_watchdog,
        };
        let due = match deadline {
            Some(t) => t <= self.now,
            None => false,
        };
        proof {
            // The replica table is keyed uniquely, so the entry found is
            // the only one the contract speaks of.
            assert forall|i: int|
                0 <= i < self.replicas@.len() && (#[trigger] self.replicas@[i]).0
                    == node.0 implies i == rj as int by {
                if i != rj {
                    assert(self.replicas@[i].0 != self.replicas@[rj as int].0);
                }
            }
        }
        if due {
            self.push_inbox(NodeKind::Replica(node), Event::TimerFired(kind));
            let ghost inbox_mid = self.inbox_replica@;
            self.schedule(self.now, WheelEvent::Deliver(NodeKind::Replica(node)));
            let ghost wheel_mid = self.wheel@;
            self.trace.push(TraceEntry::TimerFired { at: self.now, node, kind });
            proof {
                assert(self.inbox_replica@ == inbox_mid);
                let ji = choose|j: int|
                    0 <= j < inbox_mid.len() && (#[trigger] inbox_mid[j]).0 == node.0
                        && inbox_mid[j].1@.len() >= 1 && inbox_mid[j].1@.last()
                        == Event::TimerFired(kind);
                assert(self.inbox_replica@[ji].0 == node.0 && self.inbox_replica@[ji].1@.last()
                    == Event::TimerFired(kind));
                assert(self.wheel@ == wheel_mid);
                assert(Self::clamp_time(old(self).now, old(self).now) == old(self).now);
                let jw = choose|j: int|
                    0 <= j < wheel_mid.len() && (#[trigger] wheel_mid[j]).0 == old(self).now
                        && wheel_mid[j].1@.len() >= 1 && wheel_mid[j].1@.last()
                        == (WheelEvent::Deliver(NodeKind::Replica(node)));
                assert(self.wheel@[jw].0 == old(self).now && self.wheel@[jw].1@.last()
                    == (WheelEvent::Deliver(NodeKind::Replica(node))));
            }
        }
    }

    /// A client wakes up: it records the operation as in flight and
    /// sends a `Request` with its current request number to the replica
    /// it believes primary.
    fn client_think(&mut self, client_id: NodeId, op: Op)
        requires
            old(self).wf(),
        ensures
            final(self).wf(),
            final(self).processed == old(self).processed,
            final(self).now == old(self).now,
            final(self).config == old(self).config,
            // An unknown client thinks nothing.
            (forall|i: int|
                0 <= i < old(self).clients@.len() ==> (#[trigger] old(self).clients@[i]).0
                    != client_id.0) ==> *final(self) == *old(self),
            // A known client records the operation as in flight.
            (exists|i: int|
                0 <= i < old(self).clients@.len() && (#[trigger] old(self).clients@[i]).0
                    == client_id.0) ==> exists|i: int|
                0 <= i < final(self).clients@.len() && (#[trigger] final(self).clients@[i]).0
                    == client_id.0 && final(self).clients@[i].1.pending == Some(op),
    {
        let cj = match self.find_client_idx(client_id.0) {
            Some(x) => x,
            None => {
                return ;
            },
        };
        let ghost pre = self.clients@;
        let mut centry = self.clients.remove(cj);
        let request_number = centry.1.request_number;
        centry.1.pending = Some(dup_op(&op));
        let cfg_len = centry.1.configuration.len();
        let primary: Option<u64> = if cfg_len == 0 {
            None
        } else {
            let idx = (centry.1.current_view % (cfg_len as u64)) as usize;
            Some(centry.1.configuration[idx])
        };
        self.clients.insert(cj, centry);
        proof {
            let cur = self.clients@;
            assert forall|i: int, j2: int| 0 <= i < j2 < cur.len() implies cur[i].0
                != cur[j2].0 by {
                assert(cur[i] == pre.remove(cj as int).insert(cj as int, cur[cj as int])[i]);
                assert(cur[j2] == pre.remove(cj as int).insert(cj as int, cur[cj as int])[j2]);
                assert(pre[i].0 != pre[j2].0);
            }
            assert forall|i: int| 0 <= i < cur.len() implies (#[trigger] cur[i]).1.wf() by {
                if i != cj {
                    assert(cur[i] == pre.remove(cj as int).insert(cj as int, cur[cj as int])[i]);
                    assert(cur[i] == pre[i]);
                }
            }
        }
        let ghost mid_clients = self.clients@;
        proof {
            assert(mid_clients[cj as int].0 == client_id.0 && mid_clients[cj as int].1.pending
                == Some(op));
        }
        match primary {
            Some(p) => {
                let request = Message::Request(
                    crate::message::ClientRequest {
                        op,
                        client_id: client_id.0,
                        request_number,
                        result: None,
                    },
                );
                self.send(NodeKind::Client(client_id), NodeKind::Replica(NodeId(p)), request);
            },
            None => {},
        }
        proof {
            assert(self.clients@ == mid_clients);
            assert(self.clients@[cj as int].0 == client_id.0 && self.clients@[cj
                as int].1.pending == Some(op));
        }
    }

    /// Deliver the head of a node's inbox to the node.
    fn deliver_one(&mut self, dst: NodeKind)
        requires
            old(self).wf(),
        ensures
            final(self).wf(),
            final(self).processed == old(self).processed,
            final(self).now == old(self).now,
            final(self).config == old(self).config,
    {
        match dst {
            NodeKind::Replica(id) => self.deliver_to_replica(id),
            NodeKind::Client(id) => self.deliver_to_client(id),
        }
    }

    /// Pop the earliest bucket, advance the clock to it, and process its
    /// events in insertion order.
    pub fn step(&mut self)
        requires
            old(self).wf(),
        ensures
            final(self).wf(),
            final(self).now >= old(self).now,
            final(self).config == old(self).config,
            old(self).wheel@.len() == 0 ==> *final(self) == *old(self),
            old(self).wheel@.len() > 0 ==> final(self).now == old(self).wheel@[0].0
                && final(self).processed@ == old(self).processed@ + old(self).wheel@[0].1@,
    {
        if self.wheel.len() == 0 {
            return ;
        }
        let bucket = self.wheel.remove(0);
        self.now = bucket.0;
        let ghost evs0 = bucket.1@;
        proof {
            self.processed@ = self.processed@ + evs0;
        }
        let mut events = bucket.1;
        proof {
            assert forall|i: int, j: int|
                0 <= i < j < self.wheel@.len() implies self.wheel@[i].0 < self.wheel@[j].0 by {
                assert(self.wheel@[i] == old(self).wheel@[i + 1]);
                assert(self.wheel@[j] == old(self).wheel@[j + 1]);
            }
            assert forall|i: int| 0 <= i < self.wheel@.len() implies (#[trigger] self.wheel@[i]).0
                >= self.now by {
                assert(self.wheel@[i] == old(self).wheel@[i + 1]);
                assert(old(self).wheel@[0].0 < old(self).wheel@[i + 1].0);
            }
        }
        while events.len() > 0
            invariant
                self.wf(),
                self.now == bucket.0,
                self.config == old(self).config,
                self.processed@ == old(self).processed@ + evs0,
            decreases events@.len(),
        {
            let ev = events.remove(0);
            match ev {
                WheelEvent::Deliver(to) => self.deliver_one(to),
                WheelEvent::FireTimer { node, kind } => self.fire_timer(node, kind),
                WheelEvent::ClientThink { client_id, op } => self.client_think(client_id, op),
            }
        }
    }

    /// Drive the wheel until it is empty, the next bucket lies past
    /// `max_time`, or the configured step budget runs out.
    pub fn run_until(&mut self, max_time: u64)
        requires
            old(self).wf(),
        ensures
            final(self).wf(),
            final(self).now >= old(self).now,
            final(self).config == old(self).config,
            final(self).now <= max_time || final(self).now == old(self).now,
            // The run ends for one of exactly three reasons: nothing
            // left, nothing left in time, or the step budget spent (one
            // bucket of at least one event per step).
            final(self).wheel@.len() == 0 || final(self).wheel@[0].0 > max_time || final(self).processed@.len() >= old(self).processed@.len() + old(self).config.step_budget,
    {
        let mut budget = self.config.step_budget;
        while budget > 0
            invariant
                self.wf(),
                self.now >= old(self).now,
                self.now <= max_time || self.now == old(self).now,
                self.config == old(self).config,
                budget <= old(self).config.step_budget,
                self.processed@.len() >= old(self).processed@.len() + (old(self).config.step_budget - budget),
            ensures
                self.wheel@.len() == 0 || self.wheel@[0].0 > max_time || self.processed@.len()
                    >= old(self).processed@.len() + old(self).config.step_budget,
            decreases budget,
        {
            if self.wheel.len() == 0 {
                break ;
            }
            if self.wheel[0].0 > max_time {
                break ;
            }
            budget = budget - 1;
            self.step();
        }
    }

    /// Drive the wheel until its configured end of time.
    pub fn run(&mut self)
        requires
            old(self).wf(),
        ensures
            final(self).wf(),
            final(self).now >= old(self).now,
            final(self).config == old(self).config,
            ({
                let bound = match old(self).config.run_until_max_time {
                    Some(t) => t,
                    None => u64::MAX,
                };
                &&& (final(self).now <= bound || final(self).now == old(self).now)
                &&& (final(self).wheel@.len() == 0 || final(self).wheel@[0].0 > bound || final(self).processed@.len() >= old(self).processed@.len() + old(self).config.step_budget)
            }),
    {
        let max_time = match self.config.run_until_max_time {
            Some(t) => t,
            None => u64::MAX,
        };
        self.run_until(max_time);
    }
}

} // verus!