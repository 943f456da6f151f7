//! The per-replica core of the Normal-case VR protocol.
//!
//! Every operation is a pure transition `(state, event, now) -> effects`
//! over `&mut self`: no I/O, no clock, no randomness. The well-formedness
//! predicate [`Replica::wf`] carries the protocol's local invariants —
//! commit never passes the log head, log positions carry their own op
//! numbers, a (client, request number) pair is sequenced at most once,
//! cached replies are the deterministic output of the committed prefix,
//! and every commit this primary performed has recorded quorum evidence.

use crate::effect::{Effect, TimerKind};
use crate::kv::{output_for, Op, Output, StateMachine};
use crate::message::{dup_op, dup_output, dup_request, dup_single_output, ClientRequest, Message};
use vstd::prelude::*;
use vstd::string::StringExecFns;

verus! {

/// The replica's protocol status. The core implements `Normal`; the other
/// three are entry points for sub-protocols outside the Normal case.
#[derive(Clone, Copy, Debug, PartialEq, Eq, Structural)]
pub enum Status {
    Normal,
    ViewChange,
    Recovering,
    Transitioning,
}

/// One log position: the op number the primary assigned and the request
/// sequenced there. Entries are appended and never rewritten; results
/// live in the client table, so `request.result` stays `None` here.
#[derive(Clone, Debug, PartialEq)]
pub struct LogEntry {
    pub op_number: u64,
    pub request: ClientRequest,
}

/// `request` with its result field cleared, which is how it is logged and
/// replicated.
pub open spec fn strip_result(request: ClientRequest) -> ClientRequest {
    ClientRequest {
        op: request.op,
        client_id: request.client_id,
        request_number: request.request_number,
        result: None,
    }
}

/// Last-match lookup in a client-table sequence. The table keeps client
/// ids unique, so at most one entry can match.
pub open spec fn ct_lookup_seq(s: Seq<(u64, ClientRequest)>, cid: u64) -> Option<ClientRequest>
    decreases s.len(),
{
    if s.len() == 0 {
        None
    } else if s.last().0 == cid {
        Some(s.last().1)
    } else {
        ct_lookup_seq(s.drop_last(), cid)
    }
}

/// No client id appears twice.
pub open spec fn ct_keys_unique(s: Seq<(u64, ClientRequest)>) -> bool {
    forall|i: int, j: int| 0 <= i < j < s.len() ==> s[i].0 != s[j].0
}

/// An entry with the key decides the lookup.
pub proof fn lemma_ct_lookup_at(s: Seq<(u64, ClientRequest)>, j: int)
    requires
        ct_keys_unique(s),
        0 <= j < s.len(),
    ensures
        ct_lookup_seq(s, s[j].0) == Some(s[j].1),
    decreases s.len(),
{
    if j < s.len() - 1 {
        assert(s.last().0 != s[j].0);
        assert(s.drop_last()[j] == s[j]);
        lemma_ct_lookup_at(s.drop_last(), j);
    }
}

/// No entry with the key, no lookup result.
pub proof fn lemma_ct_lookup_absent(s: Seq<(u64, ClientRequest)>, cid: u64)
    requires
        forall|j: int| 0 <= j < s.len() ==> s[j].0 != cid,
    ensures
        ct_lookup_seq(s, cid) is None,
    decreases s.len(),
{
    if s.len() > 0 {
        lemma_ct_lookup_absent(s.drop_last(), cid);
    }
}

/// Removing an entry with a different key leaves a lookup unchanged.
pub proof fn lemma_ct_lookup_remove(s: Seq<(u64, ClientRequest)>, j: int, cid: u64)
    requires
        0 <= j < s.len(),
        s[j].0 != cid,
    ensures
        ct_lookup_seq(s.remove(j), cid) == ct_lookup_seq(s, cid),
    decreases s.len(),
{
    let t = s.remove(j);
    if j == s.len() - 1 {
        assert(t =~= s.drop_last());
    } else {
        assert(t.last() == s.last());
        assert(t.drop_last() =~= s.drop_last().remove(j));
        if s.last().0 != cid {
            lemma_ct_lookup_remove(s.drop_last(), j, cid);
        }
    }
}

/// The replicated-log core of one VR replica over state machine `S`.
pub struct Replica<S: StateMachine> {
    /// The sorted replica addresses; its length fixes the quorum size.
    pub configuration: Vec<String>,
    /// This replica's index into the configuration.
    pub replica_number: u64,
    /// The configuration epoch (a placeholder for reconfiguration).
    pub epoch: u64,
    /// The current view; the primary is `view_number mod N`.
    pub view_number: u64,
    /// The protocol status; the handlers below act only in `Normal`.
    pub status: Status,
    /// The highest op number sequenced into the log.
    pub op_number: u64,
    /// The highest op number known committed.
    pub commit_number: u64,
    /// The highest op number applied to the state machine.
    pub applied_number: u64,
    /// The ordered log, position `k` holding op number `k + 1`.
    pub log: Vec<LogEntry>,
    /// Per-client: the most recent request accepted for it, with its
    /// result once executed. Serves duplicate suppression and cached
    /// replies.
    pub client_table: Vec<(u64, ClientRequest)>,
    /// Primary only: per uncommitted op, the backups that acknowledged it.
    pub op_ack_table: Vec<(u64, Vec<u64>)>,
    /// The application the committed prefix is applied to.
    pub state_machine: S,
    /// Idle window after which the primary heartbeats, in virtual ms.
    pub timeout_primary_idle_commit: u64,
    /// The primary-idle timer's current deadline, when armed.
    pub next_primary_idle_commit: Option<u64>,
    /// Silence window after which a backup suspects the primary.
    pub timeout_backup_watchdog: u64,
    /// The watchdog's current deadline, when armed.
    pub next_backup_watchdog: Option<u64>,
    /// For every op this replica committed as primary: the set of
    /// replicas (itself included) whose acknowledgements justified it.
    pub commit_quorums: Ghost<Map<u64, Set<u64>>>,
}

impl<S: StateMachine> Replica<S> {
    /// The configuration size N.
    pub open spec fn n_replicas(&self) -> int {
        self.configuration@.len() as int
    }

    /// The quorum threshold, floor(N / 2) + 1, out of the whole
    /// configuration (the primary's implicit self-ack included).
    pub open spec fn quorum_spec(&self) -> int {
        self.n_replicas() / 2 + 1
    }

    /// Whether this replica is the current view's primary.
    pub open spec fn is_primary_spec(&self) -> bool {
        self.view_number as int % self.n_replicas() == self.replica_number as int
    }

    /// The operations of the first `k` log positions, oldest first.
    pub open spec fn history_prefix(&self, k: int) -> Seq<Op> {
        Seq::new(k as nat, |i: int| self.log@[i].request.op)
    }

    /// The client-table entry for `cid`, if one exists.
    pub open spec fn ct_lookup(&self, cid: u64) -> Option<ClientRequest> {
        ct_lookup_seq(self.client_table@, cid)
    }

    /// The log holds exactly ops `1..=op_number`, each position carrying
    /// its own op number and no result, and no (client, request number)
    /// pair twice.
    pub open spec fn log_wf(&self) -> bool {
        &&& self.log@.len() == self.op_number as int
        &&& forall|k: int|
            0 <= k < self.log@.len() ==> (#[trigger] self.log@[k]).op_number == k + 1
        &&& forall|k: int| 0 <= k < self.log@.len() ==> (#[trigger] self.log@[k]).request.result is None
        &&& forall|a: int, b: int|
            0 <= a < b < self.log@.len() && self.log@[a].request.client_id
                == self.log@[b].request.client_id ==> self.log@[a].request.request_number
                < self.log@[b].request.request_number
    }

    /// Client-table soundness: ids unique and consistent; every logged
    /// request is dominated by its client's table entry (so a request
    /// number is sequenced at most once); every cached result is the
    /// deterministic output of the committed prefix it was computed on.
    pub open spec fn client_table_wf(&self) -> bool {
        &&& ct_keys_unique(self.client_table@)
        &&& forall|j: int|
            0 <= j < self.client_table@.len() ==> (#[trigger] self.client_table@[j]).1.client_id
                == self.client_table@[j].0
        &&& forall|a: int|
            0 <= a < self.log@.len() ==> (ct_lookup_seq(
                self.client_table@,
                (#[trigger] self.log@[a]).request.client_id,
            ) matches Some(r) && self.log@[a].request.request_number <= r.request_number)
        &&& forall|j: int|
            0 <= j < self.client_table@.len() ==> exists|a: int|
                0 <= a < self.log@.len() && (#[trigger] self.log@[a]).request.client_id == (
                #[trigger] self.client_table@[j]).0 && self.log@[a].request.request_number
                    == self.client_table@[j].1.request_number
        &&& forall|j: int|
            0 <= j < self.client_table@.len() ==> ((#[trigger] self.client_table@[j]).1.result
                matches Some(out) ==> exists|k: int|
                {
                    &&& 0 <= k < self.applied_number
                    &&& (#[trigger] self.log@[k]).request.client_id == self.client_table@[j].0
                    &&& self.log@[k].request.request_number
                        == self.client_table@[j].1.request_number
                    &&& self.log@[k].request.op == self.client_table@[j].1.op
                    &&& out == output_for(self.history_prefix(k), self.log@[k].request.op)
                })
    }

    /// Ack-table soundness: op keys unique; per op, acknowledging
    /// replicas are distinct configuration members other than this one.
    pub open spec fn ack_table_wf(&self) -> bool {
        &&& forall|i: int, j: int|
            0 <= i < j < self.op_ack_table@.len() ==> self.op_ack_table@[i].0
                != self.op_ack_table@[j].0
        &&& forall|j: int|
            0 <= j < self.op_ack_table@.len() ==> {
                let acks = (#[trigger] self.op_ack_table@[j]).1;
                &&& (forall|x: int, y: int| 0 <= x < y < acks@.len() ==> acks@[x] != acks@[y])
                &&& (forall|x: int|
                    0 <= x < acks@.len() ==> (#[trigger] acks@[x]) != self.replica_number
                        && acks@[x] < self.n_replicas())
            }
    }

    /// Every quorum this replica recorded when committing as primary
    /// really is one: at least floor(N / 2) + 1 distinct configuration
    /// members, this replica among them.
    pub open spec fn quorum_evidence_wf(&self) -> bool {
        forall|k: u64|
            #[trigger] self.commit_quorums@.dom().contains(k) ==> {
                let q = self.commit_quorums@[k];
                &&& 1 <= k <= self.commit_number
                &&& q.finite()
                &&& q.len() >= self.quorum_spec()
                &&& q.contains(self.replica_number)
                &&& forall|r: u64| q.contains(r) ==> r < self.n_replicas()
            }
    }

    /// The replica's local invariant.
    pub open spec fn wf(&self) -> bool {
        &&& self.n_replicas() >= 1
        &&& self.replica_number < self.n_replicas()
        &&& self.applied_number <= self.commit_number <= self.op_number
        &&& self.is_primary_spec() ==> self.applied_number == self.commit_number
        &&& self.log_wf()
        &&& self.client_table_wf()
        &&& self.ack_table_wf()
        &&& self.state_machine.inv()
        &&& self.state_machine.history() == self.history_prefix(self.applied_number as int)
        &&& self.quorum_evidence_wf()
    }

    /// Fields no Normal-case transition changes.
    pub open spec fn frame(pre: &Self, post: &Self) -> bool {
        &&& post.configuration@ == pre.configuration@
        &&& post.replica_number == pre.replica_number
        &&& post.epoch == pre.epoch
        &&& post.view_number == pre.view_number
        &&& post.timeout_primary_idle_commit == pre.timeout_primary_idle_commit
        &&& post.timeout_backup_watchdog == pre.timeout_backup_watchdog
    }

    /// The monotone part of every transition: time-like counters never
    /// decrease and the log only grows.
    pub open spec fn monotone(pre: &Self, post: &Self) -> bool {
        &&& pre.op_number <= post.op_number
        &&& pre.commit_number <= post.commit_number
        &&& pre.applied_number <= post.applied_number
        &&& pre.log@.is_prefix_of(post.log@)
        &&& pre.commit_quorums@.dom().subset_of(post.commit_quorums@.dom())
    }

    /// A fresh replica: view 0, empty log, `Normal`, timers disarmed.
    pub fn new(configuration: Vec<String>, replica_number: u64, state_machine: S) -> (r: Replica<
        S,
    >)
        requires
            1 <= configuration@.len(),
            replica_number < configuration@.len(),
            state_machine.inv(),
            state_machine.history() == Seq::<Op>::empty(),
        ensures
            r.wf(),
            r.configuration@ == configuration@,
            r.replica_number == replica_number,
            r.epoch == 0,
            r.view_number == 0,
            r.status == Status::Normal,
            r.op_number == 0,
            r.commit_number == 0,
            r.applied_number == 0,
            r.log@.len() == 0,
            r.client_table@.len() == 0,
            r.op_ack_table@.len() == 0,
            r.ct_lookup_all_none(),
            r.timeout_primary_idle_commit == 1000,
            r.timeout_backup_watchdog == 5000,
            r.next_primary_idle_commit is None,
            r.next_backup_watchdog is None,
    {
        let r = Replica {
            configuration,
            replica_number,
            epoch: 0,
            view_number: 0,
            status: Status::Normal,
            op_number: 0,
            commit_number: 0,
            applied_number: 0,
            log: Vec::new(),
            client_table: Vec::new(),
            op_ack_table: Vec::new(),
            state_machine,
            timeout_primary_idle_commit: 1000,
            next_primary_idle_commit: None,
            timeout_backup_watchdog: 5000,
            next_backup_watchdog: None,
            commit_quorums: Ghost(Map::empty()),
        };
        proof {
            assert(r.history_prefix(0) =~= Seq::<Op>::empty());
            assert forall|cid: u64| r.ct_lookup(cid) is None by {
                lemma_ct_lookup_absent(r.client_table@, cid);
            }
        }
        r
    }

    /// An empty client table answers no lookup.
    pub open spec fn ct_lookup_all_none(&self) -> bool {
        forall|cid: u64| #[trigger] self.ct_lookup(cid) is None
    }

    /// Whether this replica is the current view's primary,
    /// `view_number mod N == replica_number`.
    pub fn is_primary(&self) -> (r: bool)
        requires
            self.n_replicas() >= 1,
        ensures
            r == self.is_primary_spec(),
    {
        self.view_number % (self.configuration.len() as u64) == self.replica_number
    }

    /// Whether a message's view matches this replica's.
    pub fn is_same_view(&self, view_number: u64) -> (r: bool)
        ensures
            r == (view_number == self.view_number),
    {
        self.view_number == view_number
    }

    /// The quorum threshold, floor(N / 2) + 1.
    pub fn get_quorum(&self) -> (r: usize)
        ensures
            r == self.quorum_spec(),
    {
        self.configuration.len() / 2 + 1
    }

    /// The index of the client-table entry for `cid`, if one exists.
    fn find_client(&self, cid: u64) -> (r: Option<usize>)
        ensures
            match r {
                Some(j) => j < self.client_table@.len() && self.client_table@[j as int].0 == cid,
                None => forall|j: int|
                    0 <= j < self.client_table@.len() ==> self.client_table@[j].0 != cid,
            },
    {
        let mut j: usize = 0;
        while j < self.client_table.len()
            invariant
                j <= self.client_table@.len(),
                forall|i: int| 0 <= i < j ==> self.client_table@[i].0 != cid,
            decreases self.client_table@.len() - j,
        {
            if self.client_table[j].0 == cid {
                return Some(j);
            }
            j = j + 1;
        }
        None
    }

    /// The most recent request this replica accepted from `cid`, with
    /// its cached result when executed.
    pub fn get_last_request_from_client(&self, client_id: u64) -> (r: Option<ClientRequest>)
        requires
            self.client_table_wf(),
        ensures
            r == self.ct_lookup(client_id),
    {
        match self.find_client(client_id) {
            Some(j) => {
                proof {
                    lemma_ct_lookup_at(self.client_table@, j as int);
                }
                Some(dup_request(&self.client_table[j].1))
            },
            None => {
                proof {
                    lemma_ct_lookup_absent(self.client_table@, client_id);
                }
                None
            },
        }
    }

    /// The list `0..N` of replica indices, the broadcast target.
    fn replica_ids(&self) -> (r: Vec<u64>)
        ensures
            r@.len() == self.n_replicas(),
            forall|i: int| 0 <= i < r@.len() ==> r@[i] == i,
    {
        let n = self.configuration.len();
        let mut ids: Vec<u64> = Vec::new();
        let mut i: usize = 0;
        while i < n
            invariant
                i <= n,
                ids@.len() == i,
                forall|j: int| 0 <= j < i ==> ids@[j] == j,
            decreases n - i,
        {
            ids.push(i as u64);
            i = i + 1;
        }
        ids
    }
}

impl<S: StateMachine> Replica<S> {
    /// Copy `request` with its result cleared, ready for the log.
    fn strip_dup(request: &ClientRequest) -> (r: ClientRequest)
        ensures
            r == strip_result(*request),
    {
        ClientRequest {
            op: dup_op(&request.op),
            client_id: request.client_id,
            request_number: request.request_number,
            result: None,
        }
    }

    /// Replace or add the client-table entry for `entry.0`.
    fn ct_upsert(&mut self, entry: (u64, ClientRequest))
        requires
            ct_keys_unique(old(self).client_table@),
        ensures
            ct_keys_unique(final(self).client_table@),
            final(self).ct_lookup(entry.0) == Some(entry.1),
            forall|cid: u64|
                cid != entry.0 ==> #[trigger] final(self).ct_lookup(cid) == old(self).ct_lookup(
                    cid,
                ),
            forall|j: int|
                0 <= j < final(self).client_table@.len()
                    ==> (#[trigger] final(self).client_table@[j]) == entry || (exists|i: int|
                    0 <= i < old(self).client_table@.len() && old(self).client_table@[i]
                        == final(self).client_table@[j] && old(self).client_table@[i].0
                        != entry.0),
            final(self).client_table@.len() <= old(self).client_table@.len() + 1,
            final(self).log == old(self).log,
            final(self).op_number == old(self).op_number,
            final(self).commit_number == old(self).commit_number,
            final(self).applied_number == old(self).applied_number,
            final(self).op_ack_table == old(self).op_ack_table,
            final(self).state_machine == old(self).state_machine,
            final(self).status == old(self).status,
            final(self).next_primary_idle_commit == old(self).next_primary_idle_commit,
            final(self).next_backup_watchdog == old(self).next_backup_watchdog,
            final(self).commit_quorums == old(self).commit_quorums,
            Self::frame(old(self), final(self)),
    {
        let ghost pre = self.client_table@;
        match self.find_client(entry.0) {
            Some(j) => {
                proof {
                    assert forall|cid: u64| cid != entry.0 implies ct_lookup_seq(
                        pre.remove(j as int),
                        cid,
                    ) == ct_lookup_seq(pre, cid) by {
                        lemma_ct_lookup_remove(pre, j as int, cid);
                    }
                }
                self.client_table.remove(j);
                self.client_table.push(entry);
                proof {
                    let cur = self.client_table@;
                    assert(cur.drop_last() =~= pre.remove(j as int));
                    assert forall|a: int, b: int| 0 <= a < b < cur.len() implies cur[a].0
                        != cur[b].0 by {
                        if b < cur.len() - 1 {
                            assert(cur[a] == pre.remove(j as int)[a]);
                            assert(cur[b] == pre.remove(j as int)[b]);
                        } else {
                            assert(cur[a] == pre.remove(j as int)[a]);
                            let orig = if a < j { a } else { a + 1 };
                            assert(pre.remove(j as int)[a] == pre[orig]);
                            assert(pre[orig].0 != pre[j as int].0);
                        }
                    }
                    assert forall|jj: int| 0 <= jj < cur.len() implies (cur[jj] == entry || (
                    exists|i: int|
                        0 <= i < pre.len() && pre[i] == cur[jj] && pre[i].0 != entry.0)) by {
                        if jj < cur.len() - 1 {
                            let orig = if jj < j { jj } else { jj + 1 };
                            assert(cur[jj] == pre.remove(j as int)[jj]);
                            assert(pre[orig] == cur[jj]);
                            assert(pre[orig].0 != entry.0);
                        }
                    }
                }
            },
            None => {
                self.client_table.push(entry);
                proof {
                    let cur = self.client_table@;
                    assert(cur.drop_last() =~= pre);
                    assert forall|jj: int| 0 <= jj < cur.len() implies (cur[jj] == entry || (
                    exists|i: int|
                        0 <= i < pre.len() && pre[i] == cur[jj] && pre[i].0 != entry.0)) by {
                        if jj < cur.len() - 1 {
                            assert(pre[jj] == cur[jj]);
                            assert(pre[jj].0 != entry.0);
                        }
                    }
                }
            },
        }
    }
    /// Handle a client `Request` (primary only). Stale request numbers
    /// are dropped, the current one is answered from the cache, a fresh
    /// one is sequenced into the log and replicated via `Prepare`.
    /// Everything [`Replica::on_request`] does, as a relation between
    /// the state before and after: dropped outside `Normal`, rejected
    /// with an `Error` at a non-primary, deduplicated or answered from
    /// the cache by request number, accepted otherwise.
    pub open spec fn request_post(
        pre: &Self,
        post: &Self,
        request: ClientRequest,
        now: u64,
        effects: Seq<Effect>,
    ) -> bool {
        &&& (pre.status != Status::Normal ==> *post == *pre && effects.len() == 0)
        &&& (pre.status == Status::Normal && !pre.is_primary_spec() ==> *post == *pre
            && effects.len() == 1 && (effects[0] matches Effect::Reply { client_id, message }
            && client_id == request.client_id && message matches Message::Error { .. }))
        &&& (pre.status == Status::Normal && pre.is_primary_spec() ==> match pre.ct_lookup(
            request.client_id,
        ) {
            Some(last) => {
                &&& request.request_number < last.request_number ==> *post == *pre
                    && effects.len() == 0
                &&& request.request_number == last.request_number ==> *post == *pre
                    && match last.result {
                    Some(out) => effects.len() == 1 && (effects[0] matches Effect::Reply {
                        client_id,
                        message,
                    } && client_id == request.client_id && message == (Message::Reply {
                        client_id: request.client_id,
                        view_number: pre.view_number,
                        request_id: request.request_number,
                        result: Some(out),
                    })),
                    None => effects.len() == 0,
                }
                &&& request.request_number > last.request_number
                    ==> Self::accepted_or_at_capacity(pre, post, request, now, effects)
            },
            None => Self::accepted_or_at_capacity(pre, post, request, now, effects),
        })
    }

    pub fn on_request(&mut self, request: ClientRequest, now: u64) -> (effects: Vec<Effect>)
        requires
            old(self).wf(),
        ensures
            final(self).wf(),
            Self::frame(old(self), final(self)),
            Self::monotone(old(self), final(self)),
            final(self).status == old(self).status,
            final(self).commit_number == old(self).commit_number,
            final(self).applied_number == old(self).applied_number,
            Self::request_post(old(self), final(self), request, now, effects@),
    {
        if !matches!(self.status, Status::Normal) {
            return Vec::new();
        }
        if !self.is_primary() {
            let mut effects: Vec<Effect> = Vec::new();
            effects.push(
                Effect::Reply {
                    client_id: request.client_id,
                    message: Message::Error { message: String::from_str("not primary") },
                },
            );
            return effects;
        }
        match self.get_last_request_from_client(request.client_id) {
            Some(last) => {
                if request.request_number < last.request_number {
                    return Vec::new();
                }
                if request.request_number == last.request_number {
                    match dup_output(&last.result) {
                        Some(out) => {
                            let mut effects: Vec<Effect> = Vec::new();
                            effects.push(
                                Effect::Reply {
                                    client_id: request.client_id,
                                    message: Message::Reply {
                                        client_id: request.client_id,
                                        view_number: self.view_number,
                                        request_id: request.request_number,
                                        result: Some(out),
                                    },
                                },
                            );
                            return effects;
                        },
                        None => {
                            return Vec::new();
                        },
                    }
                }
                if self.op_number == u64::MAX {
                    return Vec::new();
                }
                self.accept_request(request, now)
            },
            None => {
                if self.op_number == u64::MAX {
                    return Vec::new();
                }
                self.accept_request(request, now)
            },
        }
    }

    /// A fresh request is accepted, unless the op counter has hit the
    /// machine limit, in which case it is dropped unchanged.
    pub open spec fn accepted_or_at_capacity(
        pre: &Self,
        post: &Self,
        request: ClientRequest,
        now: u64,
        effects: Seq<Effect>,
    ) -> bool {
        if pre.op_number < u64::MAX {
            Self::request_accepted(pre, post, request, now, effects)
        } else {
            *post == *pre && effects.len() == 0
        }
    }

    /// What accepting a fresh request does: one new log position, the
    /// client table moved to the new request number, a `Prepare`
    /// broadcast to the whole configuration, and the idle timer re-armed.
    pub open spec fn request_accepted(
        pre: &Self,
        post: &Self,
        request: ClientRequest,
        now: u64,
        effects: Seq<Effect>,
    ) -> bool {
        &&& post.op_number == pre.op_number + 1
        &&& post.log@ == pre.log@.push(
            LogEntry { op_number: (pre.op_number + 1) as u64, request: strip_result(request) },
        )
        &&& post.ct_lookup(request.client_id) == Some(strip_result(request))
        &&& forall|cid: u64|
            cid != request.client_id ==> #[trigger] post.ct_lookup(cid) == pre.ct_lookup(cid)
        &&& post.commit_number == pre.commit_number
        &&& post.applied_number == pre.applied_number
        &&& post.status == pre.status
        &&& post.op_ack_table == pre.op_ack_table
        &&& post.state_machine == pre.state_machine
        &&& post.commit_quorums == pre.commit_quorums
        &&& post.next_primary_idle_commit == Some(
            spec_sat_add(now, pre.timeout_primary_idle_commit),
        )
        &&& post.next_backup_watchdog == pre.next_backup_watchdog
        &&& effects.len() == 2
        &&& (effects[0] matches Effect::Broadcast { to, message } && to@.len()
            == pre.n_replicas() && (forall|i: int| 0 <= i < to@.len() ==> to@[i] == i) && message
            == (Message::Prepare {
            view_number: pre.view_number,
            op_number: (pre.op_number + 1) as u64,
            commit_number: pre.commit_number,
            request: strip_result(request),
        }))
        &&& (effects[1] matches Effect::SetTimer { kind, at } && kind
            == TimerKind::PrimaryIdleCommit && at == spec_sat_add(
            now,
            pre.timeout_primary_idle_commit,
        ))
    }

    /// Append a fresh request to the log and move the client table to
    /// its request number. Shared by the primary's accept path and the
    /// backup's `Prepare` path; timers, commit advancement and effects
    /// stay with the callers.
    #[verifier::rlimit(100)]
    fn append_request(&mut self, request: &ClientRequest)
        requires
            old(self).wf(),
            old(self).op_number < u64::MAX,
            match old(self).ct_lookup(request.client_id) {
                Some(last) => request.request_number > last.request_number,
                None => true,
            },
        ensures
            final(self).wf(),
            Self::frame(old(self), final(self)),
            final(self).op_number == old(self).op_number + 1,
            final(self).log@ == old(self).log@.push(
                LogEntry {
                    op_number: (old(self).op_number + 1) as u64,
                    request: strip_result(*request),
                },
            ),
            final(self).ct_lookup(request.client_id) == Some(strip_result(*request)),
            forall|cid: u64|
                cid != request.client_id ==> #[trigger] final(self).ct_lookup(cid) == old(self).ct_lookup(cid),
            final(self).commit_number == old(self).commit_number,
            final(self).applied_number == old(self).applied_number,
            final(self).status == old(self).status,
            final(self).op_ack_table == old(self).op_ack_table,
            final(self).state_machine == old(self).state_machine,
            final(self).commit_quorums == old(self).commit_quorums,
            final(self).next_primary_idle_commit == old(self).next_primary_idle_commit,
            final(self).next_backup_watchdog == old(self).next_backup_watchdog,
    {
        let ghost pre = *old(self);
        let entry = LogEntry { op_number: self.op_number + 1, request: Self::strip_dup(request) };
        proof {
            // Every logged request of this client is dominated by the
            // table entry, so the fresh request number is strictly newer.
            assert forall|a: int|
                0 <= a < self.log@.len() && (#[trigger] self.log@[a]).request.client_id
                    == request.client_id implies self.log@[a].request.request_number
                < request.request_number by {}
        }
        self.log.push(entry);
        self.op_number = self.log.len() as u64;
        self.ct_upsert((request.client_id, Self::strip_dup(request)));
        proof {
            let post = *self;
            assert(post.log@.drop_last() =~= pre.log@);
            assert(post.history_prefix(post.applied_number as int) =~= pre.history_prefix(
                pre.applied_number as int,
            ));
            assert(pre.log@.is_prefix_of(post.log@));
            // Log well-formedness: the new tail carries its own op number
            // and a strictly newer request number for its client.
            assert forall|a: int, b: int|
                0 <= a < b < post.log@.len() && post.log@[a].request.client_id
                    == post.log@[b].request.client_id implies post.log@[a].request.request_number
                < post.log@[b].request.request_number by {
                if b == post.log@.len() - 1 {
                    assert(post.log@[a] == pre.log@[a]);
                }
            }
            // Client-table well-formedness for the updated table.
            assert forall|a: int| 0 <= a < post.log@.len() implies (ct_lookup_seq(
                post.client_table@,
                (#[trigger] post.log@[a]).request.client_id,
            ) matches Some(r) && post.log@[a].request.request_number <= r.request_number) by {
                if a < post.log@.len() - 1 {
                    assert(post.log@[a] == pre.log@[a]);
                    if pre.log@[a].request.client_id != request.client_id {
                        assert(post.ct_lookup(pre.log@[a].request.client_id) == pre.ct_lookup(
                            pre.log@[a].request.client_id,
                        ));
                    }
                }
            }
            assert forall|j: int| 0 <= j < post.client_table@.len() implies exists|a: int|
                0 <= a < post.log@.len() && (#[trigger] post.log@[a]).request.client_id == (
                #[trigger] post.client_table@[j]).0 && post.log@[a].request.request_number
                    == post.client_table@[j].1.request_number by {
                if post.client_table@[j] == (request.client_id, strip_result(*request)) {
                    let a = post.log@.len() - 1;
                    assert(post.log@[a].request.client_id == post.client_table@[j].0);
                    assert(post.log@[a].request.request_number
                        == post.client_table@[j].1.request_number);
                } else {
                    let i = choose|i: int|
                        0 <= i < pre.client_table@.len() && pre.client_table@[i]
                            == post.client_table@[j] && pre.client_table@[i].0
                            != request.client_id;
                    let a = choose|a: int|
                        0 <= a < pre.log@.len() && (#[trigger] pre.log@[a]).request.client_id == (
                        #[trigger] pre.client_table@[i]).0
                            && pre.log@[a].request.request_number
                            == pre.client_table@[i].1.request_number;
                    assert(post.log@[a] == pre.log@[a]);
                }
            }
            assert forall|j: int| 0 <= j < post.client_table@.len() implies ((
            #[trigger] post.client_table@[j]).1.result matches Some(out) ==> exists|k: int|
                {
                    &&& 0 <= k < post.applied_number
                    &&& (#[trigger] post.log@[k]).request.client_id == post.client_table@[j].0
                    &&& post.log@[k].request.request_number
                        == post.client_table@[j].1.request_number
                    &&& post.log@[k].request.op == post.client_table@[j].1.op
                    &&& out == output_for(post.history_prefix(k), post.log@[k].request.op)
                }) by {
                if post.client_table@[j].1.result is Some {
                    assert(post.client_table@[j] != (request.client_id, strip_result(*request)));
                    let i = choose|i: int|
                        0 <= i < pre.client_table@.len() && pre.client_table@[i]
                            == post.client_table@[j] && pre.client_table@[i].0
                            != request.client_id;
                    let out = post.client_table@[j].1.result->0;
                    let k = choose|k: int|
                        {
                            &&& 0 <= k < pre.applied_number
                            &&& (#[trigger] pre.log@[k]).request.client_id
                                == pre.client_table@[i].0
                            &&& pre.log@[k].request.request_number
                                == pre.client_table@[i].1.request_number
                            &&& pre.log@[k].request.op == pre.client_table@[i].1.op
                            &&& out == output_for(pre.history_prefix(k), pre.log@[k].request.op)
                        };
                    assert(post.log@[k] == pre.log@[k]);
                    assert(post.history_prefix(k) =~= pre.history_prefix(k));
                }
            }
            lemma_evidence_wf_carries(&pre, &post);
        }
    }

    /// Sequence a fresh request: append, update the client table,
    /// broadcast `Prepare`, re-arm the idle timer.
    fn accept_request(&mut self, request: ClientRequest, now: u64) -> (effects: Vec<Effect>)
        requires
            old(self).wf(),
            old(self).status == Status::Normal,
            old(self).is_primary_spec(),
            old(self).op_number < u64::MAX,
            match old(self).ct_lookup(request.client_id) {
                Some(last) => request.request_number > last.request_number,
                None => true,
            },
        ensures
            final(self).wf(),
            Self::frame(old(self), final(self)),
            Self::monotone(old(self), final(self)),
            final(self).status == old(self).status,
            Self::request_accepted(old(self), final(self), request, now, effects@),
    {
        let prepare_req = Self::strip_dup(&request);
        self.append_request(&request);
        let ghost mid = *self;
        let at = sat_add(now, self.timeout_primary_idle_commit);
        self.next_primary_idle_commit = Some(at);
        let mut effects: Vec<Effect> = Vec::new();
        effects.push(
            Effect::Broadcast {
                to: self.replica_ids(),
                message: Message::Prepare {
                    view_number: self.view_number,
                    op_number: self.op_number,
                    commit_number: self.commit_number,
                    request: prepare_req,
                },
            },
        );
        effects.push(Effect::SetTimer { kind: TimerKind::PrimaryIdleCommit, at });
        proof {
            let post = *self;
            assert(post.client_table@ == mid.client_table@);
            assert forall|cid: u64|
                cid != request.client_id implies #[trigger] post.ct_lookup(cid) == old(self).ct_lookup(cid) by {
                assert(mid.ct_lookup(cid) == old(self).ct_lookup(cid));
            }
            assert(post.ct_lookup(request.client_id) == Some(strip_result(request))) by {
                assert(mid.ct_lookup(request.client_id) == Some(strip_result(request)));
            }
            lemma_evidence_wf_carries(old(self), &post);
        }
        effects
    }

    /// What the commit number becomes when a message announces
    /// `msg_commit`: never going backwards, never past the log head.
    pub open spec fn clamped_commit(pre_commit: u64, msg_commit: u64, op_number: u64) -> u64 {
        let target = if msg_commit > pre_commit {
            msg_commit
        } else {
            pre_commit
        };
        if target > op_number {
            op_number
        } else {
            target
        }
    }

    /// Whether a backup in Normal status accepts this `Prepare`: it is
    /// the next in-order op of its own view, carrying a request number
    /// fresh for its client. A gap (the backup is behind) is dropped —
    /// the state-transfer sub-protocol, outside the Normal case, would
    /// catch it up — and so is a duplicate or stale view.
    pub open spec fn prepare_acceptable(
        pre: &Self,
        view_number: u64,
        op_number: u64,
        request: ClientRequest,
    ) -> bool {
        &&& pre.status == Status::Normal
        &&& view_number == pre.view_number
        &&& !pre.is_primary_spec()
        &&& pre.op_number < u64::MAX
        &&& op_number == pre.op_number + 1
        &&& match ct_lookup_seq(pre.client_table@, request.client_id) {
            Some(last) => request.request_number > last.request_number,
            None => true,
        }
    }

    /// What accepting a `Prepare` does: one appended log position, the
    /// client table moved, the commit number advanced (clamped to the
    /// log head), a `PrepareOk` to the primary, the watchdog re-armed,
    /// and one `ApplyCommitted` per newly committed op, in order.
    pub open spec fn prepare_accepted(
        pre: &Self,
        post: &Self,
        view_number: u64,
        op_number: u64,
        commit_number: u64,
        request: ClientRequest,
        now: u64,
        effects: Seq<Effect>,
    ) -> bool {
        let newc = Self::clamped_commit(pre.commit_number, commit_number, op_number);
        &&& post.op_number == op_number
        &&& post.log@ == pre.log@.push(
            LogEntry { op_number: op_number, request: strip_result(request) },
        )
        &&& post.ct_lookup(request.client_id) == Some(strip_result(request))
        &&& forall|cid: u64|
            cid != request.client_id ==> #[trigger] post.ct_lookup(cid) == pre.ct_lookup(cid)
        &&& post.commit_number == newc
        &&& post.applied_number == pre.applied_number
        &&& post.status == pre.status
        &&& post.op_ack_table == pre.op_ack_table
        &&& post.state_machine == pre.state_machine
        &&& post.commit_quorums == pre.commit_quorums
        &&& post.next_primary_idle_commit == pre.next_primary_idle_commit
        &&& post.next_backup_watchdog == Some(spec_sat_add(now, pre.timeout_backup_watchdog))
        &&& effects.len() == 2 + newc - pre.commit_number
        &&& (effects[0] matches Effect::Send { to, message } && to == pre.view_number as int
            % pre.n_replicas() && message == (Message::PrepareOk {
            view_number: pre.view_number,
            replica_number: pre.replica_number,
            op_number,
            commit_number,
        }))
        &&& (effects[1] matches Effect::SetTimer { kind, at } && kind
            == TimerKind::BackupWatchdog && at == spec_sat_add(now, pre.timeout_backup_watchdog))
        &&& forall|i: int|
            2 <= i < effects.len() ==> (#[trigger] effects[i] matches Effect::ApplyCommitted {
                op_number,
            } && op_number == pre.commit_number + i - 1)
    }

    /// Whether this `Prepare` re-announces an op the backup already
    /// holds: same view, Normal, not primary, op already sequenced here.
    pub open spec fn prepare_duplicate(pre: &Self, view_number: u64, op_number: u64) -> bool {
        &&& pre.status == Status::Normal
        &&& view_number == pre.view_number
        &&& !pre.is_primary_spec()
        &&& 1 <= op_number <= pre.op_number
    }

    /// What a duplicate `Prepare` does: nothing is appended, but the
    /// commit advance, the `PrepareOk` and the watchdog re-arm happen
    /// again — so an acknowledgement lost on the wire is re-sent.
    pub open spec fn prepare_duplicated(
        pre: &Self,
        post: &Self,
        view_number: u64,
        op_number: u64,
        commit_number: u64,
        now: u64,
        effects: Seq<Effect>,
    ) -> bool {
        let newc = Self::clamped_commit(pre.commit_number, commit_number, pre.op_number);
        &&& post.op_number == pre.op_number
        &&& post.log == pre.log
        &&& post.client_table == pre.client_table
        &&& post.op_ack_table == pre.op_ack_table
        &&& post.state_machine == pre.state_machine
        &&& post.applied_number == pre.applied_number
        &&& post.status == pre.status
        &&& post.commit_quorums == pre.commit_quorums
        &&& post.commit_number == newc
        &&& post.next_primary_idle_commit == pre.next_primary_idle_commit
        &&& post.next_backup_watchdog == Some(spec_sat_add(now, pre.timeout_backup_watchdog))
        &&& effects.len() == 2 + newc - pre.commit_number
        &&& (effects[0] matches Effect::Send { to, message } && to == pre.view_number as int
            % pre.n_replicas() && message == (Message::PrepareOk {
            view_number: pre.view_number,
            replica_number: pre.replica_number,
            op_number,
            commit_number,
        }))
        &&& (effects[1] matches Effect::SetTimer { kind, at } && kind
            == TimerKind::BackupWatchdog && at == spec_sat_add(now, pre.timeout_backup_watchdog))
        &&& forall|i: int|
            2 <= i < effects.len() ==> (#[trigger] effects[i] matches Effect::ApplyCommitted {
                op_number,
            } && op_number == pre.commit_number + i - 1)
    }

    /// Everything [`Replica::on_prepare`] does: append and acknowledge
    /// an in-order fresh op; re-acknowledge and advance commit on a
    /// duplicate; drop a gap (state transfer is outside the Normal
    /// case), a stale or future view, or a stale request number.
    pub open spec fn prepare_post(
        pre: &Self,
        post: &Self,
        view_number: u64,
        op_number: u64,
        commit_number: u64,
        request: ClientRequest,
        now: u64,
        effects: Seq<Effect>,
    ) -> bool {
        if Self::prepare_acceptable(pre, view_number, op_number, request) {
            post.view_number == pre.view_number && Self::prepare_accepted(
                pre,
                post,
                view_number,
                op_number,
                commit_number,
                request,
                now,
                effects,
            )
        } else if Self::prepare_duplicate(pre, view_number, op_number) {
            Self::prepare_duplicated(
                pre,
                post,
                view_number,
                op_number,
                commit_number,
                now,
                effects,
            )
        } else {
            *post == *pre && effects.len() == 0
        }
    }

    /// Handle a `Prepare` from the primary (backups only).
    pub fn on_prepare(
        &mut self,
        view_number: u64,
        op_number: u64,
        commit_number: u64,
        request: ClientRequest,
        now: u64,
    ) -> (effects: Vec<Effect>)
        requires
            old(self).wf(),
        ensures
            final(self).wf(),
            Self::frame(old(self), final(self)),
            Self::monotone(old(self), final(self)),
            final(self).status == old(self).status,
            final(self).applied_number == old(self).applied_number,
            Self::prepare_post(
                old(self),
                final(self),
                view_number,
                op_number,
                commit_number,
                request,
                now,
                effects@,
            ),
    {
        if !matches!(self.status, Status::Normal) || !self.is_same_view(view_number)
            || self.is_primary() {
            return Vec::new();
        }
        if op_number >= 1 && op_number <= self.op_number {
            // A duplicate of an op this backup already holds: do not
            // append, but advance the commit point and re-send the
            // acknowledgement the primary may have missed.
            let old_commit = self.commit_number;
            let target = if commit_number > old_commit {
                commit_number
            } else {
                old_commit
            };
            let newc = if target > self.op_number {
                self.op_number
            } else {
                target
            };
            self.commit_number = newc;
            let mut effects: Vec<Effect> = Vec::new();
            effects.push(
                Effect::Send {
                    to: self.view_number % (self.configuration.len() as u64),
                    message: Message::PrepareOk {
                        view_number: self.view_number,
                        replica_number: self.replica_number,
                        op_number,
                        commit_number,
                    },
                },
            );
            let at = sat_add(now, self.timeout_backup_watchdog);
            self.next_backup_watchdog = Some(at);
            effects.push(Effect::SetTimer { kind: TimerKind::BackupWatchdog, at });
            let ghost eff0 = effects@[0];
            let ghost eff1 = effects@[1];
            let mut k = old_commit;
            while k < newc
                invariant
                    old_commit <= k <= newc,
                    effects@.len() == 2 + k - old_commit,
                    effects@[0] == eff0,
                    effects@[1] == eff1,
                    forall|i: int|
                        2 <= i < effects@.len() ==> (#[trigger] effects@[i] matches
                        Effect::ApplyCommitted { op_number } && op_number == old_commit + i - 1),
                decreases newc - k,
            {
                k = k + 1;
                effects.push(Effect::ApplyCommitted { op_number: k });
            }
            proof {
                lemma_evidence_wf_carries(old(self), self);
            }
            return effects;
        }
        if self.op_number == u64::MAX || op_number != self.op_number + 1 {
            return Vec::new();
        }
        let fresh = match self.get_last_request_from_client(request.client_id) {
            Some(last) => request.request_number > last.request_number,
            None => true,
        };
        if !fresh {
            return Vec::new();
        }
        self.append_request(&request);
        let ghost mid = *self;
        let old_commit = self.commit_number;
        let target = if commit_number > old_commit {
            commit_number
        } else {
            old_commit
        };
        let newc = if target > self.op_number {
            self.op_number
        } else {
            target
        };
        self.commit_number = newc;
        let mut effects: Vec<Effect> = Vec::new();
        effects.push(
            Effect::Send {
                to: self.view_number % (self.configuration.len() as u64),
                message: Message::PrepareOk {
                    view_number: self.view_number,
                    replica_number: self.replica_number,
                    op_number,
                    commit_number,
                },
            },
        );
        let at = sat_add(now, self.timeout_backup_watchdog);
        self.next_backup_watchdog = Some(at);
        effects.push(Effect::SetTimer { kind: TimerKind::BackupWatchdog, at });
        let ghost eff0 = effects@[0];
        let ghost eff1 = effects@[1];
        let mut k = old_commit;
        while k < newc
            invariant
                old_commit <= k <= newc,
                effects@.len() == 2 + k - old_commit,
                effects@[0] == eff0,
                effects@[1] == eff1,
                forall|i: int|
                    2 <= i < effects@.len() ==> (#[trigger] effects@[i] matches
                    Effect::ApplyCommitted { op_number } && op_number == old_commit + i - 1),
            decreases newc - k,
        {
            k = k + 1;
            effects.push(Effect::ApplyCommitted { op_number: k });
        }
        proof {
            let post = *self;
            assert(post.client_table@ == mid.client_table@);
            assert forall|cid: u64|
                cid != request.client_id implies #[trigger] post.ct_lookup(cid) == old(self).ct_lookup(cid) by {
                assert(mid.ct_lookup(cid) == old(self).ct_lookup(cid));
            }
            assert(post.ct_lookup(request.client_id) == Some(strip_result(request))) by {
                assert(mid.ct_lookup(request.client_id) == Some(strip_result(request)));
            }
            lemma_evidence_wf_carries(old(self), &post);
        }
        effects
    }

    /// Everything [`Replica::on_commit`] does: on a backup of the same
    /// view, the clamped commit advance with its `ApplyCommitted`s and
    /// the watchdog re-arm; a drop anywhere else.
    pub open spec fn commit_post(
        pre: &Self,
        post: &Self,
        view_number: u64,
        op_number: u64,
        commit_number: u64,
        now: u64,
        effects: Seq<Effect>,
    ) -> bool {
        if pre.status == Status::Normal && view_number == pre.view_number
            && !pre.is_primary_spec() {
            let newc = Self::clamped_commit(pre.commit_number, commit_number, pre.op_number);
            &&& post.commit_number == newc
            &&& post.next_backup_watchdog == Some(
                spec_sat_add(now, pre.timeout_backup_watchdog),
            )
            &&& post.next_primary_idle_commit == pre.next_primary_idle_commit
            &&& post.client_table == pre.client_table
            &&& post.op_ack_table == pre.op_ack_table
            &&& post.state_machine == pre.state_machine
            &&& post.commit_quorums == pre.commit_quorums
            &&& effects.len() == 1 + newc - pre.commit_number
            &&& (effects[0] matches Effect::SetTimer { kind, at } && kind
                == TimerKind::BackupWatchdog && at == spec_sat_add(
                now,
                pre.timeout_backup_watchdog,
            ))
            &&& forall|i: int|
                1 <= i < effects.len() ==> (#[trigger] effects[i] matches Effect::ApplyCommitted {
                    op_number,
                } && op_number == pre.commit_number + i)
        } else {
            *post == *pre && effects.len() == 0
        }
    }

    /// Handle a `Commit` heartbeat (backups only): advance the commit
    /// number as a `Prepare` would and re-arm the watchdog.
    pub fn on_commit(
        &mut self,
        view_number: u64,
        op_number: u64,
        commit_number: u64,
        now: u64,
    ) -> (effects: Vec<Effect>)
        requires
            old(self).wf(),
        ensures
            final(self).wf(),
            Self::frame(old(self), final(self)),
            Self::monotone(old(self), final(self)),
            final(self).status == old(self).status,
            final(self).op_number == old(self).op_number,
            final(self).log == old(self).log,
            final(self).applied_number == old(self).applied_number,
            Self::commit_post(
                old(self),
                final(self),
                view_number,
                op_number,
                commit_number,
                now,
                effects@,
            ),
    {
        if !matches!(self.status, Status::Normal) || !self.is_same_view(view_number)
            || self.is_primary() {
            return Vec::new();
        }
        let old_commit = self.commit_number;
        let target = if commit_number > old_commit {
            commit_number
        } else {
            old_commit
        };
        let newc = if target > self.op_number {
            self.op_number
        } else {
            target
        };
        self.commit_number = newc;
        let mut effects: Vec<Effect> = Vec::new();
        let at = sat_add(now, self.timeout_backup_watchdog);
        self.next_backup_watchdog = Some(at);
        effects.push(Effect::SetTimer { kind: TimerKind::BackupWatchdog, at });
        let ghost eff0 = effects@[0];
        let mut k = old_commit;
        while k < newc
            invariant
                old_commit <= k <= newc,
                effects@.len() == 1 + k - old_commit,
                effects@[0] == eff0,
                forall|i: int|
                    1 <= i < effects@.len() ==> (#[trigger] effects@[i] matches
                    Effect::ApplyCommitted { op_number } && op_number == old_commit + i),
            decreases newc - k,
        {
            k = k + 1;
            effects.push(Effect::ApplyCommitted { op_number: k });
        }
        proof {
            lemma_evidence_wf_carries(old(self), self);
        }
        effects
    }
}

/// Pushing onto a sequence adds exactly that element to its set.
pub proof fn lemma_to_set_push(s: Seq<u64>, x: u64)
    ensures
        s.push(x).to_set() =~= s.to_set().insert(x),
{
    assert forall|a: u64| s.push(x).to_set().contains(a) implies s.to_set().insert(x).contains(
        a,
    ) by {
        let i = choose|i: int| 0 <= i < s.push(x).len() && s.push(x)[i] == a;
        if i < s.len() {
            assert(s[i] == a);
        }
    }
    assert forall|a: u64| s.to_set().insert(x).contains(a) implies s.push(x).to_set().contains(
        a,
    ) by {
        if a == x {
            assert(s.push(x)[s.len() as int] == a);
        } else {
            let i = choose|i: int| 0 <= i < s.len() && s[i] == a;
            assert(s.push(x)[i] == a);
        }
    }
}

/// Last-match lookup in an ack-table sequence, as the recorded ids.
pub open spec fn ack_lookup_seq(s: Seq<(u64, Vec<u64>)>, k: u64) -> Option<Seq<u64>>
    decreases s.len(),
{
    if s.len() == 0 {
        None
    } else if s.last().0 == k {
        Some(s.last().1@)
    } else {
        ack_lookup_seq(s.drop_last(), k)
    }
}

/// An entry with the key decides the lookup.
pub proof fn lemma_ack_lookup_at(s: Seq<(u64, Vec<u64>)>, j: int)
    requires
        forall|a: int, b: int| 0 <= a < b < s.len() ==> s[a].0 != s[b].0,
        0 <= j < s.len(),
    ensures
        ack_lookup_seq(s, s[j].0) == Some(s[j].1@),
    decreases s.len(),
{
    if j < s.len() - 1 {
        assert(s.last().0 != s[j].0);
        assert(s.drop_last()[j] == s[j]);
        lemma_ack_lookup_at(s.drop_last(), j);
    }
}

/// No entry with the key, no lookup result.
pub proof fn lemma_ack_lookup_absent(s: Seq<(u64, Vec<u64>)>, k: u64)
    requires
        forall|j: int| 0 <= j < s.len() ==> s[j].0 != k,
    ensures
        ack_lookup_seq(s, k) is None,
    decreases s.len(),
{
    if s.len() > 0 {
        lemma_ack_lookup_absent(s.drop_last(), k);
    }
}

/// Removing an entry with a different key leaves a lookup unchanged.
pub proof fn lemma_ack_lookup_remove(s: Seq<(u64, Vec<u64>)>, j: int, k: u64)
    requires
        0 <= j < s.len(),
        s[j].0 != k,
    ensures
        ack_lookup_seq(s.remove(j), k) == ack_lookup_seq(s, k),
    decreases s.len(),
{
    let t = s.remove(j);
    if j == s.len() - 1 {
        assert(t =~= s.drop_last());
    } else {
        assert(t.last() == s.last());
        assert(t.drop_last() =~= s.drop_last().remove(j));
        if s.last().0 != k {
            lemma_ack_lookup_remove(s.drop_last(), j, k);
        }
    }
}

impl<S: StateMachine> Replica<S> {
    /// The ids recorded as having acknowledged op `k`, if any.
    pub open spec fn ack_ids(&self, k: u64) -> Option<Seq<u64>> {
        ack_lookup_seq(self.op_ack_table@, k)
    }

    /// The set of replicas recorded for op `k` (empty when none).
    pub open spec fn ack_set(&self, k: u64) -> Set<u64> {
        match self.ack_ids(k) {
            Some(ids) => ids.to_set(),
            None => Set::empty(),
        }
    }

    /// Whether the recorded acks for op `k`, together with the primary's
    /// implicit self-ack, reach quorum.
    pub open spec fn has_quorum(&self, k: u64) -> bool {
        match self.ack_ids(k) {
            Some(ids) => ids.len() + 1 >= self.quorum_spec(),
            None => 1 >= self.quorum_spec(),
        }
    }

    /// The index of the ack-table entry for op `k`, if one exists.
    fn find_ack(&self, k: u64) -> (r: Option<usize>)
        ensures
            match r {
                Some(j) => j < self.op_ack_table@.len() && self.op_ack_table@[j as int].0 == k,
                None => forall|j: int|
                    0 <= j < self.op_ack_table@.len() ==> self.op_ack_table@[j].0 != k,
            },
    {
        let mut j: usize = 0;
        while j < self.op_ack_table.len()
            invariant
                j <= self.op_ack_table@.len(),
                forall|i: int| 0 <= i < j ==> self.op_ack_table@[i].0 != k,
            decreases self.op_ack_table@.len() - j,
        {
            if self.op_ack_table[j].0 == k {
                return Some(j);
            }
            j = j + 1;
        }
        None
    }

    /// Record that `rep` acknowledged op `op_number` (idempotent).
    fn ack_insert(&mut self, op_number: u64, rep: u64)
        requires
            old(self).wf(),
            rep != old(self).replica_number,
            rep < old(self).n_replicas(),
        ensures
            final(self).wf(),
            Self::frame(old(self), final(self)),
            final(self).log == old(self).log,
            final(self).op_number == old(self).op_number,
            final(self).commit_number == old(self).commit_number,
            final(self).applied_number == old(self).applied_number,
            final(self).status == old(self).status,
            final(self).client_table == old(self).client_table,
            final(self).state_machine == old(self).state_machine,
            final(self).commit_quorums == old(self).commit_quorums,
            final(self).next_primary_idle_commit == old(self).next_primary_idle_commit,
            final(self).next_backup_watchdog == old(self).next_backup_watchdog,
            final(self).ack_ids(op_number) matches Some(ids) && ids.to_set() == old(self).ack_set(
                op_number,
            ).insert(rep),
            forall|k: u64|
                k != op_number ==> #[trigger] final(self).ack_ids(k) == old(self).ack_ids(k),
    {
        let ghost pre = self.op_ack_table@;
        match self.find_ack(op_number) {
            Some(j) => {
                let mut present = false;
                let mut x: usize = 0;
                let n = self.op_ack_table[j].1.len();
                while x < n
                    invariant
                        0 <= j < self.op_ack_table@.len(),
                        n == self.op_ack_table@[j as int].1@.len(),
                        x <= n,
                        present <==> exists|y: int|
                            0 <= y < x && self.op_ack_table@[j as int].1@[y] == rep,
                    decreases n - x,
                {
                    if self.op_ack_table[j].1[x] == rep {
                        present = true;
                    }
                    x = x + 1;
                }
                proof {
                    lemma_ack_lookup_at(pre, j as int);
                }
                if present {
                    proof {
                        assert(pre[j as int].1@.to_set().contains(rep));
                        assert(pre[j as int].1@.to_set() =~= pre[j as int].1@.to_set().insert(
                            rep,
                        ));
                    }
                } else {
                    let mut entry = self.op_ack_table.remove(j);
                    entry.1.push(rep);
                    self.op_ack_table.push(entry);
                    proof {
                        let cur = self.op_ack_table@;
                        assert(cur.drop_last() =~= pre.remove(j as int));
                        assert(cur.last().0 == op_number);
                        assert(cur.last().1@ == pre[j as int].1@.push(rep));
                        lemma_to_set_push(pre[j as int].1@, rep);
                        assert forall|a: int, b: int| 0 <= a < b < cur.len() implies cur[a].0
                            != cur[b].0 by {
                            if b < cur.len() - 1 {
                                assert(cur[a] == pre.remove(j as int)[a]);
                                assert(cur[b] == pre.remove(j as int)[b]);
                            } else {
                                assert(cur[a] == pre.remove(j as int)[a]);
                                let orig = if a < j { a } else { a + 1 };
                                assert(pre.remove(j as int)[a] == pre[orig]);
                                assert(pre[orig].0 != pre[j as int].0);
                            }
                        }
                        assert forall|k: u64| k != op_number implies #[trigger] ack_lookup_seq(
                            cur,
                            k,
                        ) == ack_lookup_seq(pre, k) by {
                            lemma_ack_lookup_remove(pre, j as int, k);
                        }
                        assert forall|jj: int| 0 <= jj < cur.len() implies {
                            let acks = (#[trigger] cur[jj]).1;
                            &&& (forall|a: int, b: int|
                                0 <= a < b < acks@.len() ==> acks@[a] != acks@[b])
                            &&& (forall|a: int|
                                0 <= a < acks@.len() ==> (#[trigger] acks@[a])
                                    != self.replica_number && acks@[a] < self.n_replicas())
                        } by {
                            if jj < cur.len() - 1 {
                                let orig = if jj < j { jj } else { jj + 1 };
                                assert(cur[jj] == pre.remove(j as int)[jj]);
                                assert(cur[jj] == pre[orig]);
                            } else {
                                assert(cur[jj].1@ == pre[j as int].1@.push(rep));
                                assert(forall|a: int|
                                    0 <= a < pre[j as int].1@.len() ==> (#[trigger] pre[j
                                        as int].1@[a]) != rep);
                            }
                        }
                    }
                }
            },
            None => {
                let mut ids: Vec<u64> = Vec::new();
                ids.push(rep);
                self.op_ack_table.push((op_number, ids));
                proof {
                    let cur = self.op_ack_table@;
                    assert(cur.drop_last() =~= pre);
                    assert(cur.last().1@ == Seq::<u64>::empty().push(rep));
                    lemma_to_set_push(Seq::<u64>::empty(), rep);
                    assert(Seq::<u64>::empty().to_set() =~= Set::<u64>::empty());
                    lemma_ack_lookup_absent(pre, op_number);
                    assert forall|k: u64| k != op_number implies #[trigger] ack_lookup_seq(cur, k)
                        == ack_lookup_seq(pre, k) by {}
                }
            },
        }
        proof {
            lemma_evidence_wf_carries(old(self), self);
        }
    }

    /// Drop ack entries for ops at or below the commit point.
    fn ack_gc(&mut self)
        requires
            old(self).wf(),
        ensures
            final(self).wf(),
            Self::frame(old(self), final(self)),
            final(self).log == old(self).log,
            final(self).op_number == old(self).op_number,
            final(self).commit_number == old(self).commit_number,
            final(self).applied_number == old(self).applied_number,
            final(self).status == old(self).status,
            final(self).client_table == old(self).client_table,
            final(self).state_machine == old(self).state_machine,
            final(self).commit_quorums == old(self).commit_quorums,
            final(self).next_primary_idle_commit == old(self).next_primary_idle_commit,
            final(self).next_backup_watchdog == old(self).next_backup_watchdog,
            forall|k: u64|
                k > final(self).commit_number ==> #[trigger] final(self).ack_ids(k) == old(self).ack_ids(k),
            forall|k: u64|
                k <= final(self).commit_number ==> #[trigger] final(self).ack_ids(k) is None,
    {
        let ghost pre = self.op_ack_table@;
        let mut i: usize = 0;
        while i < self.op_ack_table.len()
            invariant
                i <= self.op_ack_table@.len(),
                self.commit_number == old(self).commit_number,
                forall|j: int| 0 <= j < i ==> self.op_ack_table@[j].0 > self.commit_number,
                forall|a: int, b: int|
                    0 <= a < b < self.op_ack_table@.len() ==> self.op_ack_table@[a].0
                        != self.op_ack_table@[b].0,
                forall|j: int|
                    0 <= j < self.op_ack_table@.len() ==> {
                        let acks = (#[trigger] self.op_ack_table@[j]).1;
                        &&& (forall|x: int, y: int|
                            0 <= x < y < acks@.len() ==> acks@[x] != acks@[y])
                        &&& (forall|x: int|
                            0 <= x < acks@.len() ==> (#[trigger] acks@[x]) != self.replica_number
                                && acks@[x] < self.n_replicas())
                    },
                forall|k: u64|
                    #![trigger ack_lookup_seq(self.op_ack_table@, k)]
                    k > self.commit_number ==> ack_lookup_seq(self.op_ack_table@, k)
                        == ack_lookup_seq(pre, k),
                Self::frame(old(self), self),
                self.log == old(self).log,
                self.op_number == old(self).op_number,
                self.applied_number == old(self).applied_number,
                self.status == old(self).status,
                self.client_table == old(self).client_table,
                self.state_machine == old(self).state_machine,
                self.commit_quorums == old(self).commit_quorums,
                self.next_primary_idle_commit == old(self).next_primary_idle_commit,
                self.next_backup_watchdog == old(self).next_backup_watchdog,
            decreases self.op_ack_table@.len() - i,
        {
            if self.op_ack_table[i].0 <= self.commit_number {
                let ghost cur = self.op_ack_table@;
                proof {
                    assert forall|k: u64|
                        k > self.commit_number implies #[trigger] ack_lookup_seq(
                        cur.remove(i as int),
                        k,
                    ) == ack_lookup_seq(cur, k) by {
                        lemma_ack_lookup_remove(cur, i as int, k);
                    }
                }
                self.op_ack_table.remove(i);
                proof {
                    assert forall|a: int, b: int|
                        0 <= a < b < self.op_ack_table@.len() implies self.op_ack_table@[a].0
                        != self.op_ack_table@[b].0 by {
                        assert(self.op_ack_table@[a] == cur.remove(i as int)[a]);
                        assert(self.op_ack_table@[b] == cur.remove(i as int)[b]);
                    }
                    assert forall|j: int| 0 <= j < self.op_ack_table@.len() implies {
                        let acks = (#[trigger] self.op_ack_table@[j]).1;
                        &&& (forall|x: int, y: int|
                            0 <= x < y < acks@.len() ==> acks@[x] != acks@[y])
                        &&& (forall|x: int|
                            0 <= x < acks@.len() ==> (#[trigger] acks@[x]) != self.replica_number
                                && acks@[x] < self.n_replicas())
                    } by {
                        assert(self.op_ack_table@[j] == cur.remove(i as int)[j]);
                        let orig = if j < i { j } else { j + 1 };
                        assert(cur.remove(i as int)[j] == cur[orig]);
                    }
                }
            } else {
                i = i + 1;
            }
        }
        proof {
            assert forall|k: u64|
                k <= self.commit_number implies #[trigger] self.ack_ids(k) is None by {
                lemma_ack_lookup_absent(self.op_ack_table@, k);
            }
            lemma_evidence_wf_carries(old(self), self);
        }
    }

    /// Apply the next committed-but-unapplied log position to the state
    /// machine and cache its result in the client table (when the table
    /// still holds that request number).
    fn apply_one(&mut self) -> (out: Output)
        requires
            old(self).applied_number < old(self).commit_number,
            old(self).commit_number <= old(self).op_number,
            old(self).log_wf(),
            old(self).client_table_wf(),
            old(self).state_machine.inv(),
            old(self).state_machine.history() == old(self).history_prefix(
                old(self).applied_number as int,
            ),
        ensures
            Self::frame(old(self), final(self)),
            final(self).applied_number == old(self).applied_number + 1,
            final(self).log == old(self).log,
            final(self).op_number == old(self).op_number,
            final(self).commit_number == old(self).commit_number,
            final(self).status == old(self).status,
            final(self).op_ack_table == old(self).op_ack_table,
            final(self).commit_quorums == old(self).commit_quorums,
            final(self).next_primary_idle_commit == old(self).next_primary_idle_commit,
            final(self).next_backup_watchdog == old(self).next_backup_watchdog,
            final(self).log_wf(),
            final(self).client_table_wf(),
            final(self).state_machine.inv(),
            final(self).state_machine.history() == final(self).history_prefix(
                final(self).applied_number as int,
            ),
            out == output_for(
                old(self).history_prefix(old(self).applied_number as int),
                old(self).log@[old(self).applied_number as int].request.op,
            ),
            forall|c: u64|
                c != old(self).log@[old(self).applied_number as int].request.client_id
                    ==> #[trigger] final(self).ct_lookup(c) == old(self).ct_lookup(c),
    {
        let ghost pre = *old(self);
        let n = self.log.len();
        proof {
            assert(self.log@.len() == n);
            assert(self.applied_number < self.log@.len());
        }
        let i = self.applied_number as usize;
        proof {
            assert(i as int == self.applied_number as int);
        }
        let input = dup_op(&self.log[i].request.op);
        let ghost h = self.state_machine.history();
        let out = self.state_machine.apply(input);
        self.applied_number = self.applied_number + 1;
        proof {
            assert(h.push(pre.log@[i as int].request.op) =~= self.history_prefix(
                self.applied_number as int,
            ));
        }
        let cid = self.log[i].request.client_id;
        let rn = self.log[i].request.request_number;
        match self.find_client(cid) {
            Some(j) => {
                if self.client_table[j].1.request_number == rn {
                    let new_req = ClientRequest {
                        op: dup_op(&self.log[i].request.op),
                        client_id: cid,
                        request_number: rn,
                        result: Some(dup_single_output(&out)),
                    };
                    let ghost before = *self;
                    self.ct_upsert((cid, new_req));
                    let ghost post = *self;
                    proof {
                        lemma_ct_lookup_at(before.client_table@, j as int);
                        // Dominance is preserved: the entry keeps its
                        // request number.
                        assert forall|a: int| 0 <= a < post.log@.len() implies (ct_lookup_seq(
                            post.client_table@,
                            (#[trigger] post.log@[a]).request.client_id,
                        ) matches Some(r) && post.log@[a].request.request_number
                            <= r.request_number) by {
                            if post.log@[a].request.client_id != cid {
                                assert(post.ct_lookup(post.log@[a].request.client_id)
                                    == before.ct_lookup(post.log@[a].request.client_id));
                            } else {
                                assert(post.ct_lookup(cid) == Some(new_req));
                            }
                        }
                        // Every entry still has a logged witness.
                        assert forall|jj: int| 0 <= jj < post.client_table@.len() implies exists|
                            a: int,
                        |
                            0 <= a < post.log@.len() && (#[trigger] post.log@[a]).request.client_id
                                == (#[trigger] post.client_table@[jj]).0
                                && post.log@[a].request.request_number
                                == post.client_table@[jj].1.request_number by {
                            if post.client_table@[jj] == (cid, new_req) {
                                assert(post.log@[i as int].request.client_id == cid);
                                assert(post.log@[i as int].request.request_number == rn);
                            } else {
                                let x = choose|x: int|
                                    0 <= x < before.client_table@.len() && before.client_table@[x]
                                        == post.client_table@[jj] && before.client_table@[x].0
                                        != cid;
                                assert(exists|a: int|
                                    0 <= a < before.log@.len() && (
                                    #[trigger] before.log@[a]).request.client_id == (
                                    #[trigger] before.client_table@[x]).0
                                        && before.log@[a].request.request_number
                                        == before.client_table@[x].1.request_number);
                            }
                        }
                        // Every cached result is the deterministic output
                        // of the prefix it was computed on.
                        assert forall|jj: int| 0 <= jj < post.client_table@.len() implies ((
                        #[trigger] post.client_table@[jj]).1.result matches Some(o) ==> exists|
                            k: int,
                        |
                            {
                                &&& 0 <= k < post.applied_number
                                &&& (#[trigger] post.log@[k]).request.client_id
                                    == post.client_table@[jj].0
                                &&& post.log@[k].request.request_number
                                    == post.client_table@[jj].1.request_number
                                &&& post.log@[k].request.op == post.client_table@[jj].1.op
                                &&& o == output_for(post.history_prefix(k), post.log@[k].request.op)
                            }) by {
                            if post.client_table@[jj].1.result is Some {
                                if post.client_table@[jj] == (cid, new_req) {
                                    let k = i as int;
                                    assert(post.log@[k].request.client_id == cid);
                                    assert(post.log@[k].request.op == new_req.op);
                                    assert(post.history_prefix(k) =~= pre.history_prefix(k));
                                    assert(new_req.result == Some(
                                        output_for(
                                            post.history_prefix(k),
                                            post.log@[k].request.op,
                                        ),
                                    ));
                                } else {
                                    let x = choose|x: int|
                                        0 <= x < before.client_table@.len()
                                            && before.client_table@[x] == post.client_table@[jj]
                                            && before.client_table@[x].0 != cid;
                                    let o = post.client_table@[jj].1.result->0;
                                    let k = choose|k: int|
                                        {
                                            &&& 0 <= k < pre.applied_number
                                            &&& (#[trigger] pre.log@[k]).request.client_id
                                                == before.client_table@[x].0
                                            &&& pre.log@[k].request.request_number
                                                == before.client_table@[x].1.request_number
                                            &&& pre.log@[k].request.op
                                                == before.client_table@[x].1.op
                                            &&& o == output_for(
                                                pre.history_prefix(k),
                                                pre.log@[k].request.op,
                                            )
                                        };
                                    assert(post.history_prefix(k) =~= pre.history_prefix(k));
                                }
                            }
                        }
                    }
                }
            },
            None => {
            },
        }
        out
    }

    /// Whether a `PrepareOk` is acted on at all: this replica is the
    /// Normal-status primary of the message's view, the sender is another
    /// configuration member, and the op is prepared but not yet
    /// committed.
    pub open spec fn prepare_ok_relevant(
        pre: &Self,
        view_number: u64,
        replica_number: u64,
        op_number: u64,
    ) -> bool {
        &&& pre.status == Status::Normal
        &&& view_number == pre.view_number
        &&& pre.is_primary_spec()
        &&& replica_number < pre.n_replicas()
        &&& replica_number != pre.replica_number
        &&& pre.commit_number < op_number <= pre.op_number
    }

    /// Whether the recorded acks for op `k`, plus the primary's own,
    /// reach quorum.
    fn quorum_reached(&self, k: u64) -> (r: bool)
        requires
            self.wf(),
        ensures
            r == self.has_quorum(k),
    {
        let quorum = self.get_quorum();
        match self.find_ack(k) {
            Some(j) => {
                proof {
                    lemma_ack_lookup_at(self.op_ack_table@, j as int);
                }
                self.op_ack_table[j].1.len() >= quorum - 1
            },
            None => {
                proof {
                    lemma_ack_lookup_absent(self.op_ack_table@, k);
                }
                quorum <= 1
            },
        }
    }

    /// Commit the next op: record the quorum that justifies it, advance
    /// the commit number, apply the operation, and return the `Reply`
    /// effect for its client.
    fn commit_op(&mut self) -> (e: Effect)
        requires
            old(self).wf(),
            old(self).status == Status::Normal,
            old(self).is_primary_spec(),
            old(self).commit_number < old(self).op_number,
            old(self).has_quorum((old(self).commit_number + 1) as u64),
        ensures
            final(self).wf(),
            Self::frame(old(self), final(self)),
            final(self).status == old(self).status,
            final(self).log == old(self).log,
            final(self).op_number == old(self).op_number,
            final(self).op_ack_table == old(self).op_ack_table,
            final(self).next_primary_idle_commit == old(self).next_primary_idle_commit,
            final(self).next_backup_watchdog == old(self).next_backup_watchdog,
            final(self).commit_number == old(self).commit_number + 1,
            final(self).applied_number == final(self).commit_number,
            final(self).commit_quorums@ == old(self).commit_quorums@.insert(
                (old(self).commit_number + 1) as u64,
                old(self).ack_set((old(self).commit_number + 1) as u64).insert(
                    old(self).replica_number,
                ),
            ),
            ({
                let k = old(self).commit_number + 1;
                let req = old(self).log@[k - 1].request;
                e matches Effect::Reply { client_id, message } && client_id == req.client_id
                    && message == (Message::Reply {
                    client_id: req.client_id,
                    view_number: old(self).view_number,
                    request_id: req.request_number,
                    result: Some(output_for(old(self).history_prefix(k - 1), req.op)),
                })
            }),
    {
        let ghost pre = *old(self);
        let next = self.commit_number + 1;
        proof {
            // Turn the quorum into recorded evidence.
            let ids = match self.ack_ids(next) {
                Some(ids) => ids,
                None => Seq::<u64>::empty(),
            };
            if self.ack_ids(next) is Some {
                if forall|j: int|
                    0 <= j < self.op_ack_table@.len() ==> (#[trigger] self.op_ack_table@[j]).0
                        != next {
                    lemma_ack_lookup_absent(self.op_ack_table@, next);
                }
                let j = choose|j: int|
                    0 <= j < self.op_ack_table@.len() && (#[trigger] self.op_ack_table@[j]).0
                        == next;
                lemma_ack_lookup_at(self.op_ack_table@, j);
                assert(ids == self.op_ack_table@[j].1@);
                assert(ids.no_duplicates());
                assert(forall|x: int|
                    0 <= x < ids.len() ==> (#[trigger] ids[x]) != self.replica_number && ids[x]
                        < self.n_replicas());
            }
            let evidence = ids.to_set().insert(self.replica_number);
            assert(ids.to_set().finite() && ids.to_set().len() == ids.len()) by {
                if self.ack_ids(next) is Some {
                    ids.unique_seq_to_set();
                } else {
                    assert(ids.to_set() =~= Set::<u64>::empty());
                }
            }
            assert(!ids.to_set().contains(self.replica_number)) by {
                if ids.to_set().contains(self.replica_number) {
                    let x = choose|x: int| 0 <= x < ids.len() && ids[x] == self.replica_number;
                    assert(ids[x] != self.replica_number);
                }
            }
            assert(evidence.len() >= self.quorum_spec());
            assert forall|r: u64| evidence.contains(r) implies r < self.n_replicas() by {
                if r != self.replica_number {
                    let x = choose|x: int| 0 <= x < ids.len() && ids[x] == r;
                    assert(ids[x] < self.n_replicas());
                }
            }
            self.commit_quorums@ = self.commit_quorums@.insert(next, evidence);
        }
        self.commit_number = next;
        let out = self.apply_one();
        let n = self.log.len();
        proof {
            assert(self.log@.len() == n);
            assert(next - 1 < n);
        }
        let i = (next - 1) as usize;
        let reply = Message::Reply {
            client_id: self.log[i].request.client_id,
            view_number: self.view_number,
            request_id: self.log[i].request.request_number,
            result: Some(dup_single_output(&out)),
        };
        let e = Effect::Reply { client_id: self.log[i].request.client_id, message: reply };
        proof {
            assert(self.history_prefix((next - 1) as int) =~= pre.history_prefix(
                (next - 1) as int,
            ));
            assert(self.commit_quorums@.dom() =~= pre.commit_quorums@.dom().insert(next));
            let ids2 = match pre.ack_ids(next) {
                Some(ids) => ids,
                None => Seq::<u64>::empty(),
            };
            assert(ids2.to_set() == pre.ack_set(next)) by {
                if pre.ack_ids(next) is None {
                    assert(ids2.to_set() =~= Set::<u64>::empty());
                }
            }
            assert(self.commit_quorums@ == pre.commit_quorums@.insert(
                next,
                pre.ack_set(next).insert(pre.replica_number),
            ));
            assert forall|k: u64| self.commit_quorums@.dom().contains(k) implies 1 <= k
                <= self.commit_number by {
                if k != next {
                    assert(pre.commit_quorums@.dom().contains(k));
                    let qq = pre.commit_quorums@[k];
                    assert(1 <= k <= pre.commit_number);
                }
            }
        }
        e
    }

    /// The set of replicas whose acknowledgements for op `k` the primary
    /// holds once `rep`'s acknowledgement of `acked_op` is recorded.
    pub open spec fn acks_after(pre: &Self, acked_op: u64, rep: u64, k: u64) -> Set<u64> {
        if k == acked_op {
            pre.ack_set(k).insert(rep)
        } else {
            pre.ack_set(k)
        }
    }

    /// Everything [`Replica::on_prepare_ok`] does. On a relevant
    /// acknowledgement: it is recorded as a set (duplicates from one
    /// sender change nothing); ops are committed exactly while the next
    /// one has a quorum; the recorded quorum evidence of each op
    /// committed now is precisely the acknowledgements the primary
    /// held, plus itself — so nothing is committed that real
    /// acknowledgements did not justify; one `Reply` per commit, in
    /// commit order, with the deterministic output of its prefix; and
    /// when nothing reached quorum, nothing but the ack table changes.
    pub open spec fn prepare_ok_post(
        pre: &Self,
        post: &Self,
        view_number: u64,
        replica_number: u64,
        op_number: u64,
        commit_number: u64,
        effects: Seq<Effect>,
    ) -> bool {
        &&& (!Self::prepare_ok_relevant(pre, view_number, replica_number, op_number) ==> *post
            == *pre && effects.len() == 0)
        &&& (Self::prepare_ok_relevant(pre, view_number, replica_number, op_number) ==> {
            &&& (op_number > post.commit_number ==> (post.ack_ids(op_number) matches Some(ids)
                && ids.to_set() == pre.ack_set(op_number).insert(replica_number)))
            &&& (post.commit_number < post.op_number ==> !(post.has_quorum(
                (post.commit_number + 1) as u64,
            )))
            &&& (forall|k: u64|
                #[trigger] pre.commit_quorums@.dom().contains(k)
                    ==> post.commit_quorums@.dom().contains(k) && post.commit_quorums@[k]
                    == pre.commit_quorums@[k])
            &&& (forall|k: u64|
                #[trigger] post.commit_quorums@.dom().contains(k)
                    ==> pre.commit_quorums@.dom().contains(k) || pre.commit_number < k
                    <= post.commit_number)
            &&& (forall|k: u64|
                pre.commit_number < k <= post.commit_number
                    ==> #[trigger] post.commit_quorums@.dom().contains(k)
                    && post.commit_quorums@[k] == Self::acks_after(
                    pre,
                    op_number,
                    replica_number,
                    k,
                ).insert(pre.replica_number))
            &&& (post.commit_number == pre.commit_number ==> post.client_table
                == pre.client_table && post.state_machine == pre.state_machine
                && post.applied_number == pre.applied_number && post.commit_quorums
                == pre.commit_quorums)
            &&& effects.len() == post.commit_number - pre.commit_number
            &&& (forall|i: int|
                0 <= i < effects.len() ==> {
                    let k = pre.commit_number + 1 + i;
                    let req = pre.log@[k - 1].request;
                    (#[trigger] effects[i] matches Effect::Reply { client_id, message }
                        && client_id == req.client_id && message == (Message::Reply {
                        client_id: req.client_id,
                        view_number: pre.view_number,
                        request_id: req.request_number,
                        result: Some(output_for(pre.history_prefix(k - 1), req.op)),
                    }))
                })
        })
    }

    /// Handle a `PrepareOk` (primary only). The acknowledgement is
    /// recorded once per sender; ops are then committed in strictly
    /// increasing order as long as the next one has acknowledgements
    /// from a quorum (the primary's implicit self-ack included), each
    /// commit applying the operation and emitting its `Reply`.
    #[verifier::rlimit(100)]
    #[verifier::spinoff_prover]
    pub fn on_prepare_ok(
        &mut self,
        view_number: u64,
        replica_number: u64,
        op_number: u64,
        commit_number: u64,
    ) -> (effects: Vec<Effect>)
        requires
            old(self).wf(),
        ensures
            final(self).wf(),
            Self::frame(old(self), final(self)),
            Self::monotone(old(self), final(self)),
            final(self).status == old(self).status,
            final(self).log == old(self).log,
            final(self).op_number == old(self).op_number,
            final(self).next_primary_idle_commit == old(self).next_primary_idle_commit,
            final(self).next_backup_watchdog == old(self).next_backup_watchdog,
            Self::prepare_ok_post(
                old(self),
                final(self),
                view_number,
                replica_number,
                op_number,
                commit_number,
                effects@,
            ),
    {
        if !matches!(self.status, Status::Normal) || !self.is_same_view(view_number)
            || !self.is_primary() {
            return Vec::new();
        }
        if replica_number >= self.configuration.len() as u64
            || replica_number == self.replica_number {
            return Vec::new();
        }
        if op_number <= self.commit_number || op_number > self.op_number {
            return Vec::new();
        }
        self.ack_insert(op_number, replica_number);
        let ghost mid = *self;
        let mut effects: Vec<Effect> = Vec::new();
        let ghost old_commit = self.commit_number;
        while self.commit_number < self.op_number
            invariant
                self.wf(),
                Self::frame(&mid, self),
                self.log == mid.log,
                self.op_number == mid.op_number,
                self.status == mid.status,
                self.status == Status::Normal,
                self.is_primary_spec(),
                self.op_ack_table == mid.op_ack_table,
                self.next_primary_idle_commit == mid.next_primary_idle_commit,
                self.next_backup_watchdog == mid.next_backup_watchdog,
                old_commit <= self.commit_number,
                mid.commit_quorums@.dom().subset_of(self.commit_quorums@.dom()),
                forall|k: u64|
                    #[trigger] mid.commit_quorums@.dom().contains(k)
                        ==> self.commit_quorums@.dom().contains(k) && self.commit_quorums@[k]
                        == mid.commit_quorums@[k],
                forall|k: u64|
                    #[trigger] self.commit_quorums@.dom().contains(k)
                        ==> mid.commit_quorums@.dom().contains(k) || old_commit < k
                        <= self.commit_number,
                forall|k: u64|
                    old_commit < k <= self.commit_number
                        ==> #[trigger] self.commit_quorums@.dom().contains(k)
                        && self.commit_quorums@[k] == mid.ack_set(k).insert(mid.replica_number),
                self.commit_number == old_commit ==> self.client_table == mid.client_table
                    && self.state_machine == mid.state_machine && self.applied_number
                    == mid.applied_number && self.commit_quorums == mid.commit_quorums,
                effects@.len() == self.commit_number - old_commit,
                forall|i: int|
                    0 <= i < effects@.len() ==> {
                        let k = old_commit + 1 + i;
                        let req = mid.log@[k - 1].request;
                        (#[trigger] effects@[i] matches Effect::Reply { client_id, message }
                            && client_id == req.client_id && message == (Message::Reply {
                            client_id: req.client_id,
                            view_number: mid.view_number,
                            request_id: req.request_number,
                            result: Some(output_for(mid.history_prefix(k - 1), req.op)),
                        }))
                    },
            ensures
                self.commit_number < self.op_number ==> !self.has_quorum(
                    (self.commit_number + 1) as u64,
                ),
            decreases self.op_number - self.commit_number,
        {
            let next = self.commit_number + 1;
            if !self.quorum_reached(next) {
                break ;
            }
            let ghost at_entry = *self;
            let e = self.commit_op();
            effects.push(e);
            proof {
                assert(at_entry.history_prefix((next - 1) as int) =~= mid.history_prefix(
                    (next - 1) as int,
                ));
                // The evidence recorded for `next` is the real ack set:
                // the loop never touches the ack table.
                assert(at_entry.ack_ids(next) == mid.ack_ids(next));
                assert(at_entry.ack_set(next) == mid.ack_set(next));
                assert(at_entry.replica_number == mid.replica_number);
                assert(self.commit_quorums@ == at_entry.commit_quorums@.insert(
                    next,
                    at_entry.ack_set(next).insert(at_entry.replica_number),
                ));
                assert(self.commit_quorums@[next] == at_entry.ack_set(next).insert(
                    at_entry.replica_number,
                ));
                assert(self.commit_quorums@[next] == mid.ack_set(next).insert(
                    mid.replica_number,
                ));
                assert forall|k: u64|
                    #[trigger] self.commit_quorums@.dom().contains(k) implies
                    mid.commit_quorums@.dom().contains(k) || old_commit < k
                    <= self.commit_number by {
                    if k != next {
                        assert(at_entry.commit_quorums@.dom().contains(k));
                    }
                }
                assert forall|k: u64|
                    old_commit < k <= self.commit_number implies
                    #[trigger] self.commit_quorums@.dom().contains(k) && self.commit_quorums@[k]
                    == mid.ack_set(k).insert(mid.replica_number) by {
                    if k != next {
                        assert(at_entry.commit_quorums@.dom().contains(k));
                        assert(self.commit_quorums@[k] == at_entry.commit_quorums@[k]);
                    }
                }
            }
        }
        let ghost before_gc = *self;
        self.ack_gc();
        proof {
            if self.commit_number < self.op_number {
                assert(self.ack_ids((self.commit_number + 1) as u64) == before_gc.ack_ids(
                    (self.commit_number + 1) as u64,
                ));
            }
            if op_number > self.commit_number {
                assert(self.ack_ids(op_number) == before_gc.ack_ids(op_number));
                assert(before_gc.ack_ids(op_number) == mid.ack_ids(op_number));
            }
            assert forall|i: int| 0 <= i < effects@.len() implies {
                let k = old(self).commit_number + 1 + i;
                let req = old(self).log@[k - 1].request;
                (#[trigger] effects@[i] matches Effect::Reply { client_id, message } && client_id
                    == req.client_id && message == (Message::Reply {
                    client_id: req.client_id,
                    view_number: old(self).view_number,
                    request_id: req.request_number,
                    result: Some(output_for(old(self).history_prefix(k - 1), req.op)),
                }))
            } by {
                let k = old(self).commit_number + 1 + i;
                assert(mid.log@[k - 1] == old(self).log@[k - 1]);
                assert(mid.history_prefix(k - 1) =~= old(self).history_prefix(k - 1));
            }
            // Translate the loop's evidence facts from the post-insert
            // state to the state before the call: the insert touched
            // only the acknowledged op's entry.
            assert forall|k: u64|
                old(self).commit_number < k <= self.commit_number implies
                #[trigger] self.commit_quorums@.dom().contains(k) && self.commit_quorums@[k]
                == Self::acks_after(old(self), op_number, replica_number, k).insert(
                old(self).replica_number,
            ) by {
                assert(before_gc.commit_quorums@ == self.commit_quorums@);
                assert(before_gc.commit_quorums@.dom().contains(k));
                assert(before_gc.commit_quorums@[k] == mid.ack_set(k).insert(
                    mid.replica_number,
                ));
                assert(self.commit_quorums@[k] == mid.ack_set(k).insert(mid.replica_number));
                if k == op_number {
                    assert(mid.ack_ids(op_number) matches Some(ids) && ids.to_set() == old(
                        self,
                    ).ack_set(op_number).insert(replica_number));
                } else {
                    assert(mid.ack_ids(k) == old(self).ack_ids(k));
                    assert(mid.ack_set(k) == old(self).ack_set(k));
                }
            }
            assert forall|k: u64|
                #[trigger] old(self).commit_quorums@.dom().contains(k) implies
                self.commit_quorums@.dom().contains(k) && self.commit_quorums@[k] == old(
                self,
            ).commit_quorums@[k] by {
                assert(mid.commit_quorums@.dom().contains(k));
            }
        }
        effects
    }

    /// React to the passage of virtual time. An expired idle timer makes
    /// the primary broadcast a `Commit` heartbeat and re-arm; an expired
    /// watchdog makes a backup suspect the primary and leave `Normal`
    /// for `ViewChange` (whose protocol is an extension point).
    pub fn tick(&mut self, now: u64) -> (effects: Vec<Effect>)
        requires
            old(self).wf(),
        ensures
            final(self).wf(),
            Self::frame(old(self), final(self)),
            Self::monotone(old(self), final(self)),
            final(self).log == old(self).log,
            final(self).op_number == old(self).op_number,
            final(self).commit_number == old(self).commit_number,
            final(self).applied_number == old(self).applied_number,
            final(self).client_table == old(self).client_table,
            final(self).op_ack_table == old(self).op_ack_table,
            final(self).state_machine == old(self).state_machine,
            final(self).commit_quorums == old(self).commit_quorums,
            if old(self).status == Status::Normal && old(self).is_primary_spec() && (old(self).next_primary_idle_commit matches Some(t) && now >= t) {
                &&& final(self).status == old(self).status
                &&& final(self).next_primary_idle_commit == Some(
                    spec_sat_add(now, old(self).timeout_primary_idle_commit),
                )
                &&& final(self).next_backup_watchdog == old(self).next_backup_watchdog
                &&& effects@.len() == 2
                &&& (effects@[0] matches Effect::Broadcast { to, message } && to@.len() == old(self).n_replicas() && (forall|i: int| 0 <= i < to@.len() ==> to@[i] == i) && message
                    == (Message::Commit {
                    op_number: old(self).op_number,
                    commit_number: old(self).commit_number,
                    view_number: old(self).view_number,
                }))
                &&& (effects@[1] matches Effect::SetTimer { kind, at } && kind
                    == TimerKind::PrimaryIdleCommit && at == spec_sat_add(
                    now,
                    old(self).timeout_primary_idle_commit,
                ))
            } else if old(self).status == Status::Normal && !old(self).is_primary_spec() && (old(self).next_backup_watchdog matches Some(t) && now >= t) {
                &&& final(self).status == Status::ViewChange
                &&& final(self).next_backup_watchdog is None
                &&& final(self).next_primary_idle_commit == old(self).next_primary_idle_commit
                &&& effects@.len() == 0
            } else {
                *final(self) == *old(self) && effects@.len() == 0
            },
            emits_own_prepares(final(self), effects@),
    {
        if matches!(self.status, Status::Normal) && self.is_primary() {
            let expired = match self.next_primary_idle_commit {
                Some(t) => now >= t,
                None => false,
            };
            if expired {
                let mut effects: Vec<Effect> = Vec::new();
                effects.push(
                    Effect::Broadcast {
                        to: self.replica_ids(),
                        message: Message::Commit {
                            op_number: self.op_number,
                            commit_number: self.commit_number,
                            view_number: self.view_number,
                        },
                    },
                );
                let at = sat_add(now, self.timeout_primary_idle_commit);
                self.next_primary_idle_commit = Some(at);
                effects.push(Effect::SetTimer { kind: TimerKind::PrimaryIdleCommit, at });
                proof {
                    lemma_evidence_wf_carries(old(self), self);
                }
                return effects;
            }
            return Vec::new();
        }
        if matches!(self.status, Status::Normal) && !self.is_primary() {
            let expired = match self.next_backup_watchdog {
                Some(t) => now >= t,
                None => false,
            };
            if expired {
                self.status = Status::ViewChange;
                self.next_backup_watchdog = None;
                proof {
                    lemma_evidence_wf_carries(old(self), self);
                }
                return Vec::new();
            }
            return Vec::new();
        }
        Vec::new()
    }

    /// Arm the initial timer for this replica's role: the idle-commit
    /// timer on the primary, the watchdog on a backup.
    pub fn bootstrap(&mut self, now: u64) -> (effects: Vec<Effect>)
        requires
            old(self).wf(),
        ensures
            final(self).wf(),
            Self::frame(old(self), final(self)),
            Self::monotone(old(self), final(self)),
            final(self).status == old(self).status,
            final(self).log == old(self).log,
            final(self).op_number == old(self).op_number,
            final(self).commit_number == old(self).commit_number,
            final(self).applied_number == old(self).applied_number,
            final(self).client_table == old(self).client_table,
            final(self).op_ack_table == old(self).op_ack_table,
            final(self).state_machine == old(self).state_machine,
            final(self).commit_quorums == old(self).commit_quorums,
            effects@.len() == 1,
            if old(self).is_primary_spec() {
                &&& final(self).next_primary_idle_commit == Some(
                    spec_sat_add(now, old(self).timeout_primary_idle_commit),
                )
                &&& final(self).next_backup_watchdog == old(self).next_backup_watchdog
                &&& (effects@[0] matches Effect::SetTimer { kind, at } && kind
                    == TimerKind::PrimaryIdleCommit && at == spec_sat_add(
                    now,
                    old(self).timeout_primary_idle_commit,
                ))
            } else {
                &&& final(self).next_backup_watchdog == Some(
                    spec_sat_add(now, old(self).timeout_backup_watchdog),
                )
                &&& final(self).next_primary_idle_commit == old(self).next_primary_idle_commit
                &&& (effects@[0] matches Effect::SetTimer { kind, at } && kind
                    == TimerKind::BackupWatchdog && at == spec_sat_add(
                    now,
                    old(self).timeout_backup_watchdog,
                ))
            },
            emits_own_prepares(final(self), effects@),
    {
        let mut effects: Vec<Effect> = Vec::new();
        if self.is_primary() {
            let at = sat_add(now, self.timeout_primary_idle_commit);
            self.next_primary_idle_commit = Some(at);
            effects.push(Effect::SetTimer { kind: TimerKind::PrimaryIdleCommit, at });
        } else {
            let at = sat_add(now, self.timeout_backup_watchdog);
            self.next_backup_watchdog = Some(at);
            effects.push(Effect::SetTimer { kind: TimerKind::BackupWatchdog, at });
        }
        proof {
            lemma_evidence_wf_carries(old(self), self);
        }
        effects
    }

    /// Dispatch one inbound message to its Normal-case handler. A
    /// message kind the core does not consume (`Reply`, `Connect`,
    /// `Error`) is dropped without effect.
    pub fn on_message(&mut self, message: Message, now: u64) -> (effects: Vec<Effect>)
        requires
            old(self).wf(),
        ensures
            final(self).wf(),
            Self::frame(old(self), final(self)),
            Self::monotone(old(self), final(self)),
            final(self).status == old(self).status,
            (message matches Message::Reply { .. } || message matches Message::Connect { .. }
                || message matches Message::Error { .. }) ==> *final(self) == *old(self)
                && effects@.len() == 0,
            emits_own_prepares(final(self), effects@),
            (message matches Message::Request(request) ==> Self::request_post(
                old(self),
                final(self),
                request,
                now,
                effects@,
            )),
            (message matches Message::Prepare { view_number, op_number, commit_number, request }
                ==> Self::prepare_post(
                old(self),
                final(self),
                view_number,
                op_number,
                commit_number,
                request,
                now,
                effects@,
            )),
            (message matches Message::PrepareOk {
                view_number,
                replica_number,
                op_number,
                commit_number,
            } ==> Self::prepare_ok_post(
                old(self),
                final(self),
                view_number,
                replica_number,
                op_number,
                commit_number,
                effects@,
            )),
            (message matches Message::Commit { op_number, commit_number, view_number }
                ==> Self::commit_post(
                old(self),
                final(self),
                view_number,
                op_number,
                commit_number,
                now,
                effects@,
            )),
            (message matches Message::Request(r) && !old(self).is_primary_spec() ==> final(self).log == old(self).log && final(self).op_number == old(self).op_number),
            (!(message matches Message::Request(r2)) && !(message matches Message::Prepare {
                ..
            }) ==> final(self).log == old(self).log && final(self).op_number == old(self).op_number),
    {
        match message {
            Message::Request(request) => self.on_request(request, now),
            Message::Prepare { view_number, op_number, commit_number, request } => self.on_prepare(
                view_number,
                op_number,
                commit_number,
                request,
                now,
            ),
            Message::PrepareOk { view_number, replica_number, op_number, commit_number } => self
                .on_prepare_ok(view_number, replica_number, op_number, commit_number),
            Message::Commit { op_number, commit_number, view_number } => self.on_commit(
                view_number,
                op_number,
                commit_number,
                now,
            ),
            Message::Reply { .. } => Vec::new(),
            Message::Connect { .. } => Vec::new(),
            Message::Error { .. } => Vec::new(),
        }
    }

    /// Enact an `ApplyCommitted` effect: run the state machine for the
    /// named log position, if it is the next one due; otherwise do
    /// nothing. Together with the log's uniqueness this is what makes
    /// execution at-most-once per request.
    pub fn apply_committed(&mut self, op_number: u64) -> (r: Option<Output>)
        requires
            old(self).wf(),
        ensures
            final(self).wf(),
            Self::frame(old(self), final(self)),
            Self::monotone(old(self), final(self)),
            final(self).status == old(self).status,
            final(self).log == old(self).log,
            final(self).op_number == old(self).op_number,
            final(self).commit_number == old(self).commit_number,
            if old(self).applied_number < old(self).commit_number && op_number == old(self).applied_number + 1 {
                &&& final(self).applied_number == op_number
                &&& r == Some(
                    output_for(
                        old(self).history_prefix((op_number - 1) as int),
                        old(self).log@[op_number - 1].request.op,
                    ),
                )
            } else {
                *final(self) == *old(self) && r is None
            },
    {
        if self.applied_number < self.commit_number && op_number == self.applied_number + 1 {
            let out = self.apply_one();
            proof {
                lemma_evidence_wf_carries(old(self), self);
            }
            Some(out)
        } else {
            None
        }
    }
}

/// If `m` is a `Prepare`, then `r` is the primary and stands behind it.
pub open spec fn prepare_claim<S: StateMachine>(r: &Replica<S>, m: Message) -> bool {
    m matches Message::Prepare { view_number, op_number, commit_number, request }
        ==> r.is_primary_spec() && prepare_from(r, view_number, op_number, request)
}

/// Every message among these effects that is a `Prepare` is one this
/// replica, as primary, stands behind. Only the primary's accept path
/// emits `Prepare`s, and only for its own log.
pub open spec fn emits_own_prepares<S: StateMachine>(r: &Replica<S>, effects: Seq<Effect>) -> bool {
    forall|i: int|
        0 <= i < effects.len() ==> match #[trigger] effects[i] {
            Effect::Send { message, .. } => prepare_claim(r, message),
            Effect::Broadcast { message, .. } => prepare_claim(r, message),
            Effect::Reply { message, .. } => prepare_claim(r, message),
            _ => true,
        }
}

/// Quorum evidence carries over unchanged while the commit number does
/// not go backwards.
pub proof fn lemma_evidence_wf_carries<S: StateMachine>(pre: &Replica<S>, post: &Replica<S>)
    requires
        pre.quorum_evidence_wf(),
        post.commit_quorums == pre.commit_quorums,
        post.commit_number >= pre.commit_number,
        post.replica_number == pre.replica_number,
        post.configuration@ == pre.configuration@,
    ensures
        post.quorum_evidence_wf(),
{
    assert forall|k: u64| #[trigger] post.commit_quorums@.dom().contains(k) implies {
        let q = post.commit_quorums@[k];
        &&& 1 <= k <= post.commit_number
        &&& q.finite()
        &&& q.len() >= post.quorum_spec()
        &&& q.contains(post.replica_number)
        &&& forall|r: u64| q.contains(r) ==> r < post.n_replicas()
    } by {
        assert(pre.commit_quorums@.dom().contains(k));
        let qq = pre.commit_quorums@[k];
        assert(qq.finite() && 1 <= k <= pre.commit_number);
        assert(post.commit_quorums@[k] == qq);
    }
}

/// A backup `b` follows a primary `p` when both stand in the same view
/// and `b`'s log is, position for position, a prefix of `p`'s.
pub open spec fn follows<S1: StateMachine, S2: StateMachine>(
    b: &Replica<S1>,
    p: &Replica<S2>,
) -> bool {
    &&& b.view_number == p.view_number
    &&& b.op_number <= p.op_number
    &&& forall|k: int| 0 <= k < b.op_number ==> b.log@[k] == p.log@[k]
}

/// A `Prepare` with these fields is one the primary `p` stands behind:
/// its op is sequenced in `p`'s log and carries exactly that request.
pub open spec fn prepare_from<S2: StateMachine>(
    p: &Replica<S2>,
    view_number: u64,
    op_number: u64,
    request: ClientRequest,
) -> bool {
    &&& view_number == p.view_number
    &&& 1 <= op_number <= p.op_number
    &&& request == p.log@[op_number - 1].request
}

/// Agreement is preserved when a backup processes a `Prepare` that came
/// from the primary it follows: whether the backup drops the message or
/// appends it, its log stays a pointwise prefix of the primary's. The
/// hypothesis on `b_post` is exactly what [`Replica::on_prepare`]
/// ensures of its state change.
pub proof fn lemma_agreement_step<S1: StateMachine, S2: StateMachine>(
    b_pre: &Replica<S1>,
    b_post: &Replica<S1>,
    p: &Replica<S2>,
    view_number: u64,
    op_number: u64,
    commit_number: u64,
    request: ClientRequest,
    now: u64,
    effects: Seq<Effect>,
)
    requires
        b_pre.wf(),
        p.wf(),
        follows(b_pre, p),
        prepare_from(p, view_number, op_number, request),
        if Replica::<S1>::prepare_acceptable(b_pre, view_number, op_number, request) {
            b_post.view_number == b_pre.view_number && Replica::<S1>::prepare_accepted(
                b_pre,
                b_post,
                view_number,
                op_number,
                commit_number,
                request,
                now,
                effects,
            )
        } else {
            b_post.log == b_pre.log && b_post.op_number == b_pre.op_number
                && b_post.view_number == b_pre.view_number
        },
    ensures
        follows(b_post, p),
{
    if Replica::<S1>::prepare_acceptable(b_pre, view_number, op_number, request) {
        // The appended entry is exactly the primary's entry at that
        // position: logged requests carry no result, so stripping is
        // the identity, and the primary's entry carries its own op
        // number.
        assert(p.log@[op_number - 1].request.result is None);
        assert(strip_result(request) == request);
        assert(p.log@[op_number - 1].op_number == op_number);
        assert(b_post.log@ == b_pre.log@.push(
            LogEntry { op_number: op_number, request: request },
        ));
        assert forall|k: int| 0 <= k < b_post.op_number implies b_post.log@[k] == p.log@[k] by {
            if k < b_pre.op_number {
                assert(b_post.log@[k] == b_pre.log@[k]);
            } else {
                assert(k == op_number - 1);
                assert(b_post.log@[k] == LogEntry { op_number: op_number, request: request });
            }
        }
    }
}

/// Agreement is preserved by the primary's own steps: they only extend
/// its log within the view.
pub proof fn lemma_agreement_primary_step<S1: StateMachine, S2: StateMachine>(
    b: &Replica<S1>,
    p_pre: &Replica<S2>,
    p_post: &Replica<S2>,
)
    requires
        p_pre.log_wf(),
        p_post.log_wf(),
        follows(b, p_pre),
        p_post.view_number == p_pre.view_number,
        p_pre.log@.is_prefix_of(p_post.log@),
        p_pre.op_number <= p_post.op_number,
    ensures
        follows(b, p_post),
{
    assert forall|k: int| 0 <= k < b.op_number implies b.log@[k] == p_post.log@[k] by {
        assert(b.log@[k] == p_pre.log@[k]);
        assert(p_pre.log@[k] == p_pre.log@.subrange(0, p_pre.log@.len() as int)[k]);
        assert(p_post.log@.subrange(0, p_pre.log@.len() as int)[k] == p_post.log@[k]);
    }
}

/// Agreement: two replicas of one view, one following the other, hold
/// the identical log entry at every position committed on both.
pub proof fn lemma_agreement<S1: StateMachine, S2: StateMachine>(b: &Replica<S1>, p: &Replica<S2>)
    requires
        b.wf(),
        p.wf(),
        follows(b, p),
    ensures
        forall|k: int|
            0 <= k < b.commit_number && k < p.commit_number ==> b.log@[k] == p.log@[k],
{
}

/// At-most-once execution: the state machine has been invoked exactly
/// once per applied log position, in order, and no two applied positions
/// carry the same (client, request number) pair — so no pair is executed
/// twice, however often its `Request` or `Prepare` is re-delivered.
pub proof fn lemma_at_most_once<S: StateMachine>(r: &Replica<S>)
    requires
        r.wf(),
    ensures
        r.state_machine.history().len() == r.applied_number,
        forall|i: int|
            0 <= i < r.applied_number ==> r.state_machine.history()[i] == r.log@[i].request.op,
        forall|a: int, b: int|
            0 <= a < b < r.applied_number ==> !(r.log@[a].request.client_id
                == r.log@[b].request.client_id && r.log@[a].request.request_number
                == r.log@[b].request.request_number),
{
}

/// Reply determinism: every result cached in the client table is the
/// output the deterministic application assigns to that client's request
/// at its log position, computed on the committed prefix before it.
/// With [`Replica::on_request`]'s contract — a repeated request number
/// is answered from this cache and changes nothing — re-sending a
/// request returns the exact same result.
pub proof fn lemma_reply_determinism<S: StateMachine>(r: &Replica<S>, cid: u64)
    requires
        r.wf(),
    ensures
        match r.ct_lookup(cid) {
            Some(req) => match req.result {
                Some(out) => exists|k: int|
                    {
                        &&& 0 <= k < r.applied_number
                        &&& (#[trigger] r.log@[k]).request.client_id == cid
                        &&& r.log@[k].request.request_number == req.request_number
                        &&& out == output_for(r.history_prefix(k), r.log@[k].request.op)
                    },
                None => true,
            },
            None => true,
        },
{
    if r.ct_lookup(cid) is Some {
        if forall|j: int|
            0 <= j < r.client_table@.len() ==> (#[trigger] r.client_table@[j]).0 != cid {
            lemma_ct_lookup_absent(r.client_table@, cid);
        }
        let j = choose|j: int|
            0 <= j < r.client_table@.len() && (#[trigger] r.client_table@[j]).0 == cid;
        lemma_ct_lookup_at(r.client_table@, j);
        let req = r.client_table@[j].1;
        if req.result is Some {
            let out = req.result->0;
            let k = choose|k: int|
                {
                    &&& 0 <= k < r.applied_number
                    &&& (#[trigger] r.log@[k]).request.client_id == r.client_table@[j].0
                    &&& r.log@[k].request.request_number == r.client_table@[j].1.request_number
                    &&& r.log@[k].request.op == r.client_table@[j].1.op
                    &&& out == output_for(r.history_prefix(k), r.log@[k].request.op)
                };
            assert(0 <= k < r.applied_number && r.log@[k].request.client_id == cid);
        }
    }
}

/// Quorum: every op this replica committed as primary carries recorded
/// evidence — at least floor(N/2)+1 distinct configuration members, the
/// primary itself among them, acknowledged it. [`Replica::on_prepare_ok`]
/// ensures such evidence is recorded for every op it commits.
pub proof fn lemma_commit_quorum<S: StateMachine>(r: &Replica<S>, k: u64)
    requires
        r.wf(),
        r.commit_quorums@.dom().contains(k),
    ensures
        r.commit_quorums@[k].finite(),
        r.commit_quorums@[k].len() >= r.quorum_spec(),
        r.commit_quorums@[k].contains(r.replica_number),
        forall|x: u64| r.commit_quorums@[k].contains(x) ==> x < r.n_replicas(),
{
}

/// `a + b`, stopping at the largest `u64` rather than wrapping; deadlines
/// computed near the end of time stay deadlines.
pub fn sat_add(a: u64, b: u64) -> (r: u64)
    ensures
        r == spec_sat_add(a, b),
{
    if a <= u64::MAX - b {
        a + b
    } else {
        u64::MAX
    }
}

/// The meaning of [`sat_add`].
pub open spec fn spec_sat_add(a: u64, b: u64) -> u64 {
    if a + b <= u64::MAX {
        (a + b) as u64
    } else {
        u64::MAX
    }
}

} // verus!
