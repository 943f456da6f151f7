//! The VR wire vocabulary: what clients and replicas say to one another.

use crate::kv::{Op, Output};
use vstd::prelude::*;

verus! {

/// One client operation together with the client's bookkeeping: who asked,
/// with which per-client sequence number, and — once the operation has been
/// executed — what it returned.
#[derive(Clone, Debug, PartialEq)]
pub struct ClientRequest {
    pub op: Op,
    pub client_id: u64,
    pub request_number: u64,
    pub result: Option<Output>,
}

/// A message of the Normal-case protocol, plus the `Connect` discovery
/// helper and the `Error` rejection. Replica numbers index the sorted
/// configuration; a view's primary is `view_number mod N`.
#[derive(Clone, Debug, PartialEq)]
pub enum Message {
    /// The primary rejects a malformed or misdirected request.
    Error { message: String },
    /// A client submits an operation to the primary.
    Request(ClientRequest),
    /// The primary tells a connecting client where the cluster stands.
    Connect { configuration: Vec<String>, current_view: u64, epoch: u64 },
    /// The primary answers a client request, once per request number.
    Reply { client_id: u64, view_number: u64, request_id: u64, result: Option<Output> },
    /// The primary replicates a freshly sequenced request to the backups.
    Prepare { view_number: u64, op_number: u64, commit_number: u64, request: ClientRequest },
    /// A backup acknowledges a `Prepare` back to the primary.
    PrepareOk { view_number: u64, replica_number: u64, op_number: u64, commit_number: u64 },
    /// The primary's heartbeat: its current log head and commit point.
    Commit { op_number: u64, commit_number: u64, view_number: u64 },
}

/// The mathematical value of a [`ClientRequest`].
pub struct ClientRequestV {
    pub op: crate::kv::OpV,
    pub client_id: u64,
    pub request_number: u64,
    pub result: Option<Output>,
}

impl View for ClientRequest {
    type V = ClientRequestV;

    open spec fn view(&self) -> ClientRequestV {
        ClientRequestV {
            op: self.op@,
            client_id: self.client_id,
            request_number: self.request_number,
            result: self.result,
        }
    }
}

/// The mathematical value of a [`Message`]: strings as character
/// sequences.
pub enum MessageV {
    Error { message: Seq<char> },
    Request(ClientRequestV),
    Connect { configuration: Seq<Seq<char>>, current_view: u64, epoch: u64 },
    Reply { client_id: u64, view_number: u64, request_id: u64, result: Option<Output> },
    Prepare { view_number: u64, op_number: u64, commit_number: u64, request: ClientRequestV },
    PrepareOk { view_number: u64, replica_number: u64, op_number: u64, commit_number: u64 },
    Commit { op_number: u64, commit_number: u64, view_number: u64 },
}

impl View for Message {
    type V = MessageV;

    open spec fn view(&self) -> MessageV {
        match self {
            Message::Error { message } => MessageV::Error { message: message@ },
            Message::Request(request) => MessageV::Request(request@),
            Message::Connect { configuration, current_view, epoch } => MessageV::Connect {
                configuration: Seq::new(configuration@.len(), |i: int| configuration@[i]@),
                current_view: *current_view,
                epoch: *epoch,
            },
            Message::Reply { client_id, view_number, request_id, result } => MessageV::Reply {
                client_id: *client_id,
                view_number: *view_number,
                request_id: *request_id,
                result: *result,
            },
            Message::Prepare { view_number, op_number, commit_number, request } => MessageV::Prepare {
                view_number: *view_number,
                op_number: *op_number,
                commit_number: *commit_number,
                request: request@,
            },
            Message::PrepareOk {
                view_number,
                replica_number,
                op_number,
                commit_number,
            } => MessageV::PrepareOk {
                view_number: *view_number,
                replica_number: *replica_number,
                op_number: *op_number,
                commit_number: *commit_number,
            },
            Message::Commit { op_number, commit_number, view_number } => MessageV::Commit {
                op_number: *op_number,
                commit_number: *commit_number,
                view_number: *view_number,
            },
        }
    }
}

/// Copy an operation; the copy is the same value.
pub fn dup_op(op: &Op) -> (r: Op)
    ensures
        r == *op,
{
    match op {
        Op::Put(k, v) => Op::Put(k.clone(), *v),
        Op::Get(k) => Op::Get(k.clone()),
        Op::Del(k) => Op::Del(k.clone()),
    }
}

/// Copy an output; the copy is the same value.
pub fn dup_output(out: &Option<Output>) -> (r: Option<Output>)
    ensures
        r == *out,
{
    match out {
        Option::None => Option::None,
        Option::Some(Output::Done) => Option::Some(Output::Done),
        Option::Some(Output::Value(v)) => Option::Some(Output::Value(*v)),
    }
}

/// Copy one output; the copy is the same value.
pub fn dup_single_output(out: &Output) -> (r: Output)
    ensures
        r == *out,
{
    match out {
        Output::Done => Output::Done,
        Output::Value(v) => Output::Value(*v),
    }
}

/// Copy a client request; the copy is the same value.
pub fn dup_request(req: &ClientRequest) -> (r: ClientRequest)
    ensures
        r == *req,
{
    ClientRequest {
        op: dup_op(&req.op),
        client_id: req.client_id,
        request_number: req.request_number,
        result: dup_output(&req.result),
    }
}

/// Copy a list of addresses; the copy reads the same.
pub fn dup_strings(v: &Vec<String>) -> (r: Vec<String>)
    ensures
        r@.len() == v@.len(),
        forall|i: int| 0 <= i < v@.len() ==> r@[i]@ == v@[i]@,
{
    let mut out: Vec<String> = Vec::new();
    let mut i: usize = 0;
    while i < v.len()
        invariant
            i <= v@.len(),
            out@.len() == i,
            forall|j: int| 0 <= j < i ==> out@[j]@ == v@[j]@,
        decreases v@.len() - i,
    {
        out.push(v[i].clone());
        i = i + 1;
    }
    out
}

/// Copy a message. Except for `Connect` — whose address list is rebuilt
/// element by element — the copy is the same value.
pub fn dup_message(m: &Message) -> (r: Message)
    ensures
        (m matches Message::Connect { .. }) || r == *m,
        (m matches Message::Connect { configuration, current_view, epoch } ==> (r matches
            Message::Connect { configuration: c2, current_view: v2, epoch: e2 } && v2
            == current_view && e2 == epoch && c2@.len() == configuration@.len() && (forall|i: int|
            0 <= i < configuration@.len() ==> c2@[i]@ == configuration@[i]@))),
        r@ == m@,
{
    match m {
        Message::Error { message } => Message::Error { message: message.clone() },
        Message::Request(request) => Message::Request(dup_request(request)),
        Message::Connect { configuration, current_view, epoch } => {
            let copy = Message::Connect {
                configuration: dup_strings(configuration),
                current_view: *current_view,
                epoch: *epoch,
            };
            proof {
                assert(copy@ matches MessageV::Connect { configuration: cv, .. } && (m@ matches
                    MessageV::Connect { configuration: cm, .. } && cv =~= cm));
            }
            copy
        },
        Message::Reply { client_id, view_number, request_id, result } => Message::Reply {
            client_id: *client_id,
            view_number: *view_number,
            request_id: *request_id,
            result: dup_output(result),
        },
        Message::Prepare { view_number, op_number, commit_number, request } => Message::Prepare {
            view_number: *view_number,
            op_number: *op_number,
            commit_number: *commit_number,
            request: dup_request(request),
        },
        Message::PrepareOk { view_number, replica_number, op_number, commit_number } => Message::PrepareOk {
            view_number: *view_number,
            replica_number: *replica_number,
            op_number: *op_number,
            commit_number: *commit_number,
        },
        Message::Commit { op_number, commit_number, view_number } => Message::Commit {
            op_number: *op_number,
            commit_number: *commit_number,
            view_number: *view_number,
        },
    }
}

} // verus!
