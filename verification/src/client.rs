//! The simulator's client model: issues operations at the current view's
//! primary and consumes the `Reply` messages that come back, mirroring
//! successful operations into a local copy of the store.

use crate::events::Event;
use crate::kv::{kv_step, lemma_kv_run_push, lemma_kv_view, KvState, Op, Output, StateMachine};
use crate::message::Message;
use crate::replica::sat_add;
use crate::simulator::NodeId;
use vstd::prelude::*;

verus! {

/// One client of the replicated store.
pub struct Client {
    /// The client's node id; doubles as its stable client id.
    pub id: NodeId,
    /// The client's mirror of the store, fed by its own replies.
    pub state: KvState,
    /// The replica node ids, sorted; index `current_view mod N` is the
    /// primary.
    pub configuration: Vec<u64>,
    /// The view the client believes current.
    pub current_view: u64,
    /// The next request number; strictly monotonic per client.
    pub request_number: u64,
    /// The configuration epoch the client believes current.
    pub epoch: u64,
    /// The operation in flight, if any, applied to the mirror on reply.
    pub pending: Option<Op>,
    /// How many replies this client has consumed.
    pub replies_received: u64,
    /// The result carried by the most recent reply.
    pub last_result: Option<Output>,
}

impl Client {
    /// The mirror is internally consistent.
    pub open spec fn wf(&self) -> bool {
        self.state.inv()
    }

    /// A fresh client at view 0 with an empty mirror.
    pub fn new(id: NodeId, configuration: Vec<u64>) -> (r: Client)
        ensures
            r.wf(),
            r.id == id,
            r.configuration@ == configuration@,
            r.current_view == 0,
            r.request_number == 0,
            r.epoch == 0,
            r.pending is None,
            r.replies_received == 0,
            r.last_result is None,
            r.state@ == Map::<Seq<char>, u64>::empty(),
    {
        Client {
            id,
            state: KvState::new(),
            configuration,
            current_view: 0,
            request_number: 0,
            epoch: 0,
            pending: None,
            replies_received: 0,
            last_result: None,
        }
    }

    /// Consume one inbound event. A `Reply` advances the request number,
    /// is counted, and — when it reports a result for the operation in
    /// flight — folds that operation into the mirror. Anything else is
    /// ignored.
    pub fn on_message(&mut self, ev: Event)
        requires
            old(self).wf(),
        ensures
            final(self).wf(),
            final(self).id == old(self).id,
            final(self).configuration == old(self).configuration,
            final(self).current_view == old(self).current_view,
            final(self).epoch == old(self).epoch,
            match ev {
                Event::Msg(Message::Reply { result, .. }) => {
                    &&& final(self).request_number == crate::replica::spec_sat_add(
                        old(self).request_number,
                        1,
                    )
                    &&& final(self).replies_received == crate::replica::spec_sat_add(
                        old(self).replies_received,
                        1,
                    )
                    &&& final(self).last_result == result
                    &&& final(self).pending is None
                    &&& (match (result, old(self).pending) {
                        (Some(_), Some(op)) => final(self).state@ == kv_step(
                            old(self).state@,
                            op,
                        ),
                        _ => final(self).state@ == old(self).state@,
                    })
                },
                _ => *final(self) == *old(self),
            },
    {
        match ev {
            Event::Msg(Message::Reply { result, .. }) => {
                self.request_number = sat_add(self.request_number, 1);
                self.replies_received = sat_add(self.replies_received, 1);
                if result.is_some() {
                    let in_flight = match &self.pending {
                        Some(op) => Some(crate::message::dup_op(op)),
                        None => None,
                    };
                    self.pending = None;
                    match in_flight {
                        Some(op) => self.apply_op(op),
                        None => {},
                    }
                } else {
                    self.pending = None;
                }
                self.last_result = result;
            },
            _ => {},
        }
    }

    /// Fold one operation into the client's mirror of the store.
    fn apply_op(&mut self, op: Op)
        requires
            old(self).wf(),
        ensures
            final(self).wf(),
            final(self).state@ == kv_step(old(self).state@, op),
            final(self).id == old(self).id,
            final(self).configuration == old(self).configuration,
            final(self).current_view == old(self).current_view,
            final(self).request_number == old(self).request_number,
            final(self).epoch == old(self).epoch,
            final(self).pending == old(self).pending,
            final(self).replies_received == old(self).replies_received,
            final(self).last_result == old(self).last_result,
    {
        proof {
            lemma_kv_view(&self.state);
        }
        let ghost h = self.state.history();
        let ghost op_g = op;
        let _ = self.state.apply(op);
        proof {
            lemma_kv_run_push(h, op_g);
            lemma_kv_view(&self.state);
        }
    }
}

} // verus!
