//! A byte framing for [`Message`], with a proved round trip.
//!
//! The format is length-explicit and self-contained: integers are
//! eight-byte little-endian, strings carry their UTF-8 byte length, sum
//! types a one-byte tag, and a frame decodes only when it is consumed
//! exactly. `enc_message` / `dec_message` give the format's meaning;
//! [`encode_message`] and [`decode_message`] compute them, and
//! [`lemma_message_round_trip`] proves that decoding an encoding yields
//! the value encoded.

use crate::kv::OpV;
use crate::message::{ClientRequestV, Message, MessageV};
use crate::kv::{Op, Output};
use crate::message::ClientRequest;
use vstd::bytes::{
    lemma_auto_spec_u64_to_from_le_bytes, spec_u64_from_le_bytes, spec_u64_to_le_bytes,
    u64_from_le_bytes, u64_to_le_bytes,
};
use vstd::prelude::*;
use vstd::slice::{slice_subrange, slice_to_vec};
use vstd::utf8::{
    decode_utf8, encode_utf8, encode_utf8_decode_utf8,
    encode_utf8_valid_utf8, valid_utf8,
};

verus! {

// ---------------------------------------------------------------------
// The format, as spec functions.
// ---------------------------------------------------------------------
/// An integer: eight bytes, little-endian.
pub open spec fn enc_u64(x: u64) -> Seq<u8> {
    spec_u64_to_le_bytes(x)
}

/// A string: its UTF-8 byte length, then its UTF-8 bytes.
pub open spec fn enc_str(s: Seq<char>) -> Seq<u8> {
    enc_u64(encode_utf8(s).len() as u64) + encode_utf8(s)
}

/// An output: a tag, plus the value a `Get` found.
pub open spec fn enc_output(o: Output) -> Seq<u8> {
    match o {
        Output::Done => seq![0u8],
        Output::Value(None) => seq![1u8],
        Output::Value(Some(v)) => seq![2u8] + enc_u64(v),
    }
}

/// An optional output: a presence tag, then the output.
pub open spec fn enc_opt_output(o: Option<Output>) -> Seq<u8> {
    match o {
        None => seq![0u8],
        Some(x) => seq![1u8] + enc_output(x),
    }
}

/// An operation: a tag, its key, and for `Put` its value.
pub open spec fn enc_op(op: OpV) -> Seq<u8> {
    match op {
        OpV::Put(k, v) => seq![0u8] + enc_str(k) + enc_u64(v),
        OpV::Get(k) => seq![1u8] + enc_str(k),
        OpV::Del(k) => seq![2u8] + enc_str(k),
    }
}

/// A client request: operation, client id, request number, result.
pub open spec fn enc_request(r: ClientRequestV) -> Seq<u8> {
    enc_op(r.op) + enc_u64(r.client_id) + enc_u64(r.request_number) + enc_opt_output(r.result)
}

/// A string list, in order (its count travels separately).
pub open spec fn enc_strs(ss: Seq<Seq<char>>) -> Seq<u8>
    decreases ss.len(),
{
    if ss.len() == 0 {
        Seq::empty()
    } else {
        enc_str(ss.first()) + enc_strs(ss.drop_first())
    }
}

/// A whole message: a variant tag, then its fields in order.
pub open spec fn enc_message(m: MessageV) -> Seq<u8> {
    match m {
        MessageV::Error { message } => seq![0u8] + enc_str(message),
        MessageV::Request(r) => seq![1u8] + enc_request(r),
        MessageV::Connect { configuration, current_view, epoch } => seq![2u8] + enc_u64(
            configuration.len() as u64,
        ) + enc_strs(configuration) + enc_u64(current_view) + enc_u64(epoch),
        MessageV::Reply { client_id, view_number, request_id, result } => seq![3u8] + enc_u64(
            client_id,
        ) + enc_u64(view_number) + enc_u64(request_id) + enc_opt_output(result),
        MessageV::Prepare { view_number, op_number, commit_number, request } => seq![4u8]
            + enc_u64(view_number) + enc_u64(op_number) + enc_u64(commit_number) + enc_request(
            request,
        ),
        MessageV::PrepareOk { view_number, replica_number, op_number, commit_number } => seq![5u8]
            + enc_u64(view_number) + enc_u64(replica_number) + enc_u64(op_number) + enc_u64(
            commit_number,
        ),
        MessageV::Commit { op_number, commit_number, view_number } => seq![6u8] + enc_u64(
            op_number,
        ) + enc_u64(commit_number) + enc_u64(view_number),
    }
}

// ---------------------------------------------------------------------
// The decoders, as spec functions over byte sequences and positions.
// ---------------------------------------------------------------------
/// Read an integer at `pos`.
pub open spec fn dec_u64(b: Seq<u8>, pos: int) -> Option<(u64, int)> {
    if 0 <= pos && pos + 8 <= b.len() {
        Some((spec_u64_from_le_bytes(b.subrange(pos, pos + 8)), pos + 8))
    } else {
        None
    }
}

/// Read a string at `pos`: its byte length, then valid UTF-8.
pub open spec fn dec_str(b: Seq<u8>, pos: int) -> Option<(Seq<char>, int)> {
    match dec_u64(b, pos) {
        None => None,
        Some((n, p)) => if p + n <= b.len() && valid_utf8(b.subrange(p, p + n)) {
            Some((decode_utf8(b.subrange(p, p + n)), p + n))
        } else {
            None
        },
    }
}

/// Read an output at `pos`.
pub open spec fn dec_output(b: Seq<u8>, pos: int) -> Option<(Output, int)> {
    if 0 <= pos && pos < b.len() {
        if b[pos] == 0u8 {
            Some((Output::Done, pos + 1))
        } else if b[pos] == 1u8 {
            Some((Output::Value(None), pos + 1))
        } else if b[pos] == 2u8 {
            match dec_u64(b, pos + 1) {
                None => None,
                Some((v, p)) => Some((Output::Value(Some(v)), p)),
            }
        } else {
            None
        }
    } else {
        None
    }
}

/// Read an optional output at `pos`.
pub open spec fn dec_opt_output(b: Seq<u8>, pos: int) -> Option<(Option<Output>, int)> {
    if 0 <= pos && pos < b.len() {
        if b[pos] == 0u8 {
            Some((None, pos + 1))
        } else if b[pos] == 1u8 {
            match dec_output(b, pos + 1) {
                None => None,
                Some((o, p)) => Some((Some(o), p)),
            }
        } else {
            None
        }
    } else {
        None
    }
}

/// Read an operation at `pos`.
pub open spec fn dec_op(b: Seq<u8>, pos: int) -> Option<(OpV, int)> {
    if 0 <= pos && pos < b.len() {
        if b[pos] == 0u8 {
            match dec_str(b, pos + 1) {
                None => None,
                Some((k, p)) => match dec_u64(b, p) {
                    None => None,
                    Some((v, p2)) => Some((OpV::Put(k, v), p2)),
                },
            }
        } else if b[pos] == 1u8 {
            match dec_str(b, pos + 1) {
                None => None,
                Some((k, p)) => Some((OpV::Get(k), p)),
            }
        } else if b[pos] == 2u8 {
            match dec_str(b, pos + 1) {
                None => None,
                Some((k, p)) => Some((OpV::Del(k), p)),
            }
        } else {
            None
        }
    } else {
        None
    }
}

/// Read a client request at `pos`.
pub open spec fn dec_request(b: Seq<u8>, pos: int) -> Option<(ClientRequestV, int)> {
    match dec_op(b, pos) {
        None => None,
        Some((op, p1)) => match dec_u64(b, p1) {
            None => None,
            Some((client_id, p2)) => match dec_u64(b, p2) {
                None => None,
                Some((request_number, p3)) => match dec_opt_output(b, p3) {
                    None => None,
                    Some((result, p4)) => Some(
                        (ClientRequestV { op, client_id, request_number, result }, p4),
                    ),
                },
            },
        },
    }
}

/// Read `count` strings starting at `pos`.
pub open spec fn dec_strs(b: Seq<u8>, pos: int, count: int) -> Option<(Seq<Seq<char>>, int)>
    decreases count,
{
    if count <= 0 {
        Some((Seq::empty(), pos))
    } else {
        match dec_str(b, pos) {
            None => None,
            Some((s, p)) => match dec_strs(b, p, count - 1) {
                None => None,
                Some((ss, p2)) => Some((seq![s] + ss, p2)),
            },
        }
    }
}

/// Read a whole message; the frame must be consumed exactly.
pub open spec fn dec_message(b: Seq<u8>) -> Option<MessageV> {
    if b.len() < 1 {
        None
    } else {
        let tag = b[0];
        if tag == 0u8 {
            match dec_str(b, 1) {
                Some((message, p)) => if p == b.len() {
                    Some(MessageV::Error { message })
                } else {
                    None
                },
                None => None,
            }
        } else if tag == 1u8 {
            match dec_request(b, 1) {
                Some((r, p)) => if p == b.len() {
                    Some(MessageV::Request(r))
                } else {
                    None
                },
                None => None,
            }
        } else if tag == 2u8 {
            match dec_u64(b, 1) {
                Some((count, p0)) => match dec_strs(b, p0, count as int) {
                    Some((configuration, p1)) => match dec_u64(b, p1) {
                        Some((current_view, p2)) => match dec_u64(b, p2) {
                            Some((epoch, p3)) => if p3 == b.len() {
                                Some(MessageV::Connect { configuration, current_view, epoch })
                            } else {
                                None
                            },
                            None => None,
                        },
                        None => None,
                    },
                    None => None,
                },
                None => None,
            }
        } else if tag == 3u8 {
            match dec_u64(b, 1) {
                Some((client_id, p1)) => match dec_u64(b, p1) {
                    Some((view_number, p2)) => match dec_u64(b, p2) {
                        Some((request_id, p3)) => match dec_opt_output(b, p3) {
                            Some((result, p4)) => if p4 == b.len() {
                                Some(
                                    MessageV::Reply {
                                        client_id,
                                        view_number,
                                        request_id,
                                        result,
                                    },
                                )
                            } else {
                                None
                            },
                            None => None,
                        },
                        None => None,
                    },
                    None => None,
                },
                None => None,
            }
        } else if tag == 4u8 {
            match dec_u64(b, 1) {
                Some((view_number, p1)) => match dec_u64(b, p1) {
                    Some((op_number, p2)) => match dec_u64(b, p2) {
                        Some((commit_number, p3)) => match dec_request(b, p3) {
                            Some((request, p4)) => if p4 == b.len() {
                                Some(
                                    MessageV::Prepare {
                                        view_number,
                                        op_number,
                                        commit_number,
                                        request,
                                    },
                                )
                            } else {
                                None
                            },
                            None => None,
                        },
                        None => None,
                    },
                    None => None,
                },
                None => None,
            }
        } else if tag == 5u8 {
            match dec_u64(b, 1) {
                Some((view_number, p1)) => match dec_u64(b, p1) {
                    Some((replica_number, p2)) => match dec_u64(b, p2) {
                        Some((op_number, p3)) => match dec_u64(b, p3) {
                            Some((commit_number, p4)) => if p4 == b.len() {
                                Some(
                                    MessageV::PrepareOk {
                                        view_number,
                                        replica_number,
                                        op_number,
                                        commit_number,
                                    },
                                )
                            } else {
                                None
                            },
                            None => None,
                        },
                        None => None,
                    },
                    None => None,
                },
                None => None,
            }
        } else if tag == 6u8 {
            match dec_u64(b, 1) {
                Some((op_number, p1)) => match dec_u64(b, p1) {
                    Some((commit_number, p2)) => match dec_u64(b, p2) {
                        Some((view_number, p3)) => if p3 == b.len() {
                            Some(MessageV::Commit { op_number, commit_number, view_number })
                        } else {
                            None
                        },
                        None => None,
                    },
                    None => None,
                },
                None => None,
            }
        } else {
            None
        }
    }
}

// ---------------------------------------------------------------------
// Boundedness: what every message built from executable values obeys.
// ---------------------------------------------------------------------
/// The string's UTF-8 form fits an eight-byte length.
pub open spec fn str_ok(s: Seq<char>) -> bool {
    encode_utf8(s).len() <= u64::MAX
}

/// Every string in the operation fits.
pub open spec fn op_ok(op: OpV) -> bool {
    match op {
        OpV::Put(k, _) => str_ok(k),
        OpV::Get(k) => str_ok(k),
        OpV::Del(k) => str_ok(k),
    }
}

/// Every string in the request fits.
pub open spec fn request_ok(r: ClientRequestV) -> bool {
    op_ok(r.op)
}

/// Every string in the message fits, and the address list's count does.
pub open spec fn msg_ok(m: MessageV) -> bool {
    match m {
        MessageV::Error { message } => str_ok(message),
        MessageV::Request(r) => request_ok(r),
        MessageV::Connect { configuration, .. } => configuration.len() <= u64::MAX && (forall|
            i: int,
        |
            0 <= i < configuration.len() ==> str_ok(#[trigger] configuration[i])),
        MessageV::Reply { .. } => true,
        MessageV::Prepare { request, .. } => request_ok(request),
        MessageV::PrepareOk { .. } => true,
        MessageV::Commit { .. } => true,
    }
}

// ---------------------------------------------------------------------
// The round trip: decoding an encoding yields the value encoded.
// ---------------------------------------------------------------------
/// A window of a window of `b` is a window of `b`.
proof fn lemma_subrange_at(b: Seq<u8>, pos: int, off: int, part: Seq<u8>, whole: Seq<u8>)
    requires
        0 <= pos,
        pos + whole.len() <= b.len(),
        b.subrange(pos, pos + whole.len()) == whole,
        0 <= off,
        off + part.len() <= whole.len(),
        whole.subrange(off, off + part.len()) == part,
    ensures
        b.subrange(pos + off, pos + off + part.len()) == part,
{
    assert(b.subrange(pos + off, pos + off + part.len()) =~= b.subrange(
        pos,
        pos + whole.len(),
    ).subrange(off, off + part.len()));
}

/// An encoded integer decodes to itself.
proof fn lemma_dec_u64_enc(b: Seq<u8>, pos: int, x: u64)
    requires
        0 <= pos,
        pos + 8 <= b.len(),
        b.subrange(pos, pos + 8) == enc_u64(x),
    ensures
        dec_u64(b, pos) == Some((x, pos + 8)),
{
    lemma_auto_spec_u64_to_from_le_bytes();
}

/// An encoded string decodes to itself.
proof fn lemma_dec_str_enc(b: Seq<u8>, pos: int, s: Seq<char>)
    requires
        0 <= pos,
        str_ok(s),
        pos + enc_str(s).len() <= b.len(),
        b.subrange(pos, pos + enc_str(s).len()) == enc_str(s),
    ensures
        dec_str(b, pos) == Some((s, pos + enc_str(s).len())),
{
    lemma_auto_spec_u64_to_from_le_bytes();
    let u = encode_utf8(s);
    let n = u.len() as int;
    let whole = enc_str(s);
    assert(whole.len() == 8 + n);
    assert(whole.subrange(0, 8) =~= enc_u64(n as u64));
    lemma_subrange_at(b, pos, 0, enc_u64(n as u64), whole);
    lemma_dec_u64_enc(b, pos, n as u64);
    assert(whole.subrange(8, 8 + n) =~= u);
    lemma_subrange_at(b, pos, 8, u, whole);
    encode_utf8_valid_utf8(s);
    encode_utf8_decode_utf8(s);
}

/// An encoded output decodes to itself.
proof fn lemma_dec_output_enc(b: Seq<u8>, pos: int, o: Output)
    requires
        0 <= pos,
        pos + enc_output(o).len() <= b.len(),
        b.subrange(pos, pos + enc_output(o).len()) == enc_output(o),
    ensures
        dec_output(b, pos) == Some((o, pos + enc_output(o).len())),
{
    lemma_auto_spec_u64_to_from_le_bytes();
    let whole = enc_output(o);
    assert(b[pos] == whole[0]);
    match o {
        Output::Done => {},
        Output::Value(None) => {},
        Output::Value(Some(v)) => {
            assert(whole.subrange(1, 9) =~= enc_u64(v));
            lemma_subrange_at(b, pos, 1, enc_u64(v), whole);
            lemma_dec_u64_enc(b, pos + 1, v);
        },
    }
}

/// An encoded optional output decodes to itself.
proof fn lemma_dec_opt_output_enc(b: Seq<u8>, pos: int, o: Option<Output>)
    requires
        0 <= pos,
        pos + enc_opt_output(o).len() <= b.len(),
        b.subrange(pos, pos + enc_opt_output(o).len()) == enc_opt_output(o),
    ensures
        dec_opt_output(b, pos) == Some((o, pos + enc_opt_output(o).len())),
{
    lemma_auto_spec_u64_to_from_le_bytes();
    let whole = enc_opt_output(o);
    assert(b[pos] == whole[0]);
    match o {
        None => {},
        Some(x) => {
            assert(whole.subrange(1, 1 + enc_output(x).len() as int) =~= enc_output(x));
            lemma_subrange_at(b, pos, 1, enc_output(x), whole);
            lemma_dec_output_enc(b, pos + 1, x);
        },
    }
}

/// An encoded operation decodes to itself.
proof fn lemma_dec_op_enc(b: Seq<u8>, pos: int, op: OpV)
    requires
        0 <= pos,
        op_ok(op),
        pos + enc_op(op).len() <= b.len(),
        b.subrange(pos, pos + enc_op(op).len()) == enc_op(op),
    ensures
        dec_op(b, pos) == Some((op, pos + enc_op(op).len())),
{
    lemma_auto_spec_u64_to_from_le_bytes();
    let whole = enc_op(op);
    assert(b[pos] == whole[0]);
    match op {
        OpV::Put(k, v) => {
            let ls = enc_str(k).len() as int;
            assert(whole.subrange(1, 1 + ls) =~= enc_str(k));
            lemma_subrange_at(b, pos, 1, enc_str(k), whole);
            lemma_dec_str_enc(b, pos + 1, k);
            assert(whole.subrange(1 + ls, 1 + ls + 8) =~= enc_u64(v));
            lemma_subrange_at(b, pos, 1 + ls, enc_u64(v), whole);
            lemma_dec_u64_enc(b, pos + 1 + ls, v);
        },
        OpV::Get(k) => {
            let ls = enc_str(k).len() as int;
            assert(whole.subrange(1, 1 + ls) =~= enc_str(k));
            lemma_subrange_at(b, pos, 1, enc_str(k), whole);
            lemma_dec_str_enc(b, pos + 1, k);
        },
        OpV::Del(k) => {
            let ls = enc_str(k).len() as int;
            assert(whole.subrange(1, 1 + ls) =~= enc_str(k));
            lemma_subrange_at(b, pos, 1, enc_str(k), whole);
            lemma_dec_str_enc(b, pos + 1, k);
        },
    }
}

/// An encoded client request decodes to itself.
proof fn lemma_dec_request_enc(b: Seq<u8>, pos: int, r: ClientRequestV)
    requires
        0 <= pos,
        request_ok(r),
        pos + enc_request(r).len() <= b.len(),
        b.subrange(pos, pos + enc_request(r).len()) == enc_request(r),
    ensures
        dec_request(b, pos) == Some((r, pos + enc_request(r).len())),
{
    lemma_auto_spec_u64_to_from_le_bytes();
    let whole = enc_request(r);
    let lo = enc_op(r.op).len() as int;
    let lr = enc_opt_output(r.result).len() as int;
    assert(whole.subrange(0, lo) =~= enc_op(r.op));
    lemma_subrange_at(b, pos, 0, enc_op(r.op), whole);
    lemma_dec_op_enc(b, pos, r.op);
    assert(whole.subrange(lo, lo + 8) =~= enc_u64(r.client_id));
    lemma_subrange_at(b, pos, lo, enc_u64(r.client_id), whole);
    lemma_dec_u64_enc(b, pos + lo, r.client_id);
    assert(whole.subrange(lo + 8, lo + 16) =~= enc_u64(r.request_number));
    lemma_subrange_at(b, pos, lo + 8, enc_u64(r.request_number), whole);
    lemma_dec_u64_enc(b, pos + lo + 8, r.request_number);
    assert(whole.subrange(lo + 16, lo + 16 + lr) =~= enc_opt_output(r.result));
    lemma_subrange_at(b, pos, lo + 16, enc_opt_output(r.result), whole);
    lemma_dec_opt_output_enc(b, pos + lo + 16, r.result);
}

/// An encoded string list decodes to itself.
proof fn lemma_dec_strs_enc(b: Seq<u8>, pos: int, ss: Seq<Seq<char>>)
    requires
        0 <= pos,
        forall|i: int| 0 <= i < ss.len() ==> str_ok(#[trigger] ss[i]),
        pos + enc_strs(ss).len() <= b.len(),
        b.subrange(pos, pos + enc_strs(ss).len()) == enc_strs(ss),
    ensures
        dec_strs(b, pos, ss.len() as int) == Some((ss, pos + enc_strs(ss).len())),
    decreases ss.len(),
{
    lemma_auto_spec_u64_to_from_le_bytes();
    if ss.len() == 0 {
        assert(ss =~= Seq::<Seq<char>>::empty());
    } else {
        let whole = enc_strs(ss);
        let head = ss.first();
        let lh = enc_str(head).len() as int;
        assert(whole.subrange(0, lh) =~= enc_str(head));
        lemma_subrange_at(b, pos, 0, enc_str(head), whole);
        lemma_dec_str_enc(b, pos, head);
        assert(whole.subrange(lh, whole.len() as int) =~= enc_strs(ss.drop_first()));
        lemma_subrange_at(b, pos, lh, enc_strs(ss.drop_first()), whole);
        lemma_dec_strs_enc(b, pos + lh, ss.drop_first());
        assert(seq![head] + ss.drop_first() =~= ss);
    }
}

/// Serialising and deserialising any message yields an equal value: for
/// every bounded message value, decoding its encoding gives it back.
pub proof fn lemma_message_round_trip(m: MessageV)
    requires
        msg_ok(m),
    ensures
        dec_message(enc_message(m)) == Some(m),
{
    lemma_auto_spec_u64_to_from_le_bytes();
    let b = enc_message(m);
    assert(b.subrange(0, b.len() as int) =~= b);
    match m {
        MessageV::Error { message } => {
            assert(b.subrange(1, 1 + enc_str(message).len() as int) =~= enc_str(message));
            lemma_dec_str_enc(b, 1, message);
        },
        MessageV::Request(r) => {
            assert(b.subrange(1, 1 + enc_request(r).len() as int) =~= enc_request(r));
            lemma_dec_request_enc(b, 1, r);
        },
        MessageV::Connect { configuration, current_view, epoch } => {
            let n = configuration.len() as int;
            let lss = enc_strs(configuration).len() as int;
            assert(b.subrange(1, 9) =~= enc_u64(configuration.len() as u64));
            lemma_dec_u64_enc(b, 1, configuration.len() as u64);
            assert(b.subrange(9, 9 + lss) =~= enc_strs(configuration));
            lemma_dec_strs_enc(b, 9, configuration);
            assert(b.subrange(9 + lss, 17 + lss) =~= enc_u64(current_view));
            lemma_dec_u64_enc(b, 9 + lss, current_view);
            assert(b.subrange(17 + lss, 25 + lss) =~= enc_u64(epoch));
            lemma_dec_u64_enc(b, 17 + lss, epoch);
        },
        MessageV::Reply { client_id, view_number, request_id, result } => {
            assert(b.subrange(1, 9) =~= enc_u64(client_id));
            lemma_dec_u64_enc(b, 1, client_id);
            assert(b.subrange(9, 17) =~= enc_u64(view_number));
            lemma_dec_u64_enc(b, 9, view_number);
            assert(b.subrange(17, 25) =~= enc_u64(request_id));
            lemma_dec_u64_enc(b, 17, request_id);
            assert(b.subrange(25, 25 + enc_opt_output(result).len() as int) =~= enc_opt_output(
                result,
            ));
            lemma_dec_opt_output_enc(b, 25, result);
        },
        MessageV::Prepare { view_number, op_number, commit_number, request } => {
            assert(b.subrange(1, 9) =~= enc_u64(view_number));
            lemma_dec_u64_enc(b, 1, view_number);
            assert(b.subrange(9, 17) =~= enc_u64(op_number));
            lemma_dec_u64_enc(b, 9, op_number);
            assert(b.subrange(17, 25) =~= enc_u64(commit_number));
            lemma_dec_u64_enc(b, 17, commit_number);
            assert(b.subrange(25, 25 + enc_request(request).len() as int) =~= enc_request(
                request,
            ));
            lemma_dec_request_enc(b, 25, request);
        },
        MessageV::PrepareOk { view_number, replica_number, op_number, commit_number } => {
            assert(b.subrange(1, 9) =~= enc_u64(view_number));
            lemma_dec_u64_enc(b, 1, view_number);
            assert(b.subrange(9, 17) =~= enc_u64(replica_number));
            lemma_dec_u64_enc(b, 9, replica_number);
            assert(b.subrange(17, 25) =~= enc_u64(op_number));
            lemma_dec_u64_enc(b, 17, op_number);
            assert(b.subrange(25, 33) =~= enc_u64(commit_number));
            lemma_dec_u64_enc(b, 25, commit_number);
        },
        MessageV::Commit { op_number, commit_number, view_number } => {
            assert(b.subrange(1, 9) =~= enc_u64(op_number));
            lemma_dec_u64_enc(b, 1, op_number);
            assert(b.subrange(9, 17) =~= enc_u64(commit_number));
            lemma_dec_u64_enc(b, 9, commit_number);
            assert(b.subrange(17, 25) =~= enc_u64(view_number));
            lemma_dec_u64_enc(b, 17, view_number);
        },
    }
}

// ---------------------------------------------------------------------
// Executable encoding.
// ---------------------------------------------------------------------
/// Append an integer's encoding.
fn e_u64(out: &mut Vec<u8>, x: u64)
    ensures
        final(out)@ == old(out)@ + enc_u64(x),
{
    let mut bs = u64_to_le_bytes(x);
    out.append(&mut bs);
}

/// Append a string's encoding.
fn e_str(out: &mut Vec<u8>, s: &String)
    ensures
        final(out)@ == old(out)@ + enc_str(s@),
{
    let bytes = s.as_str().as_bytes();
    let n = bytes.len();
    proof {
        assert(bytes@ == encode_utf8(s@));
    }
    e_u64(out, n as u64);
    let mut tail = slice_to_vec(bytes);
    out.append(&mut tail);
    proof {
        assert(final(out)@ =~= old(out)@ + enc_str(s@));
    }
}

/// Append an optional output's encoding.
fn e_opt_output(out: &mut Vec<u8>, o: &Option<Output>)
    ensures
        final(out)@ == old(out)@ + enc_opt_output(*o),
{
    match o {
        None => {
            out.push(0u8);
            proof {
                assert(final(out)@ =~= old(out)@ + enc_opt_output(*o));
            }
        },
        Some(Output::Done) => {
            out.push(1u8);
            out.push(0u8);
            proof {
                assert(final(out)@ =~= old(out)@ + enc_opt_output(*o));
            }
        },
        Some(Output::Value(None)) => {
            out.push(1u8);
            out.push(1u8);
            proof {
                assert(final(out)@ =~= old(out)@ + enc_opt_output(*o));
            }
        },
        Some(Output::Value(Some(v))) => {
            out.push(1u8);
            out.push(2u8);
            e_u64(out, *v);
            proof {
                assert(final(out)@ =~= old(out)@ + enc_opt_output(*o));
            }
        },
    }
}

/// Append an operation's encoding.
fn e_op(out: &mut Vec<u8>, op: &Op)
    ensures
        final(out)@ == old(out)@ + enc_op(op@),
{
    match op {
        Op::Put(k, v) => {
            out.push(0u8);
            e_str(out, k);
            e_u64(out, *v);
            proof {
                assert(final(out)@ =~= old(out)@ + enc_op(op@));
            }
        },
        Op::Get(k) => {
            out.push(1u8);
            e_str(out, k);
            proof {
                assert(final(out)@ =~= old(out)@ + enc_op(op@));
            }
        },
        Op::Del(k) => {
            out.push(2u8);
            e_str(out, k);
            proof {
                assert(final(out)@ =~= old(out)@ + enc_op(op@));
            }
        },
    }
}

/// Append a client request's encoding.
fn e_request(out: &mut Vec<u8>, r: &ClientRequest)
    ensures
        final(out)@ == old(out)@ + enc_request(r@),
{
    e_op(out, &r.op);
    e_u64(out, r.client_id);
    e_u64(out, r.request_number);
    e_opt_output(out, &r.result);
    proof {
        assert(final(out)@ =~= old(out)@ + enc_request(r@));
    }
}

/// The string list a vector of strings denotes.
pub open spec fn strs_view(v: Seq<String>) -> Seq<Seq<char>> {
    Seq::new(v.len(), |i: int| v[i]@)
}

/// Encoding a list grows from the right one string at a time.
proof fn lemma_enc_strs_push(ss: Seq<Seq<char>>, s: Seq<char>)
    ensures
        enc_strs(ss.push(s)) == enc_strs(ss) + enc_str(s),
    decreases ss.len(),
{
    if ss.len() == 0 {
        assert(ss.push(s).first() == s);
        assert(ss.push(s).drop_first() =~= Seq::<Seq<char>>::empty());
        assert(enc_strs(ss.push(s).drop_first()) == enc_strs(Seq::<Seq<char>>::empty()));
        assert(enc_strs(ss.push(s)) =~= enc_str(s));
        assert(enc_strs(ss) + enc_str(s) =~= enc_str(s));
    } else {
        assert(ss.push(s).first() == ss.first());
        assert(ss.push(s).drop_first() =~= ss.drop_first().push(s));
        lemma_enc_strs_push(ss.drop_first(), s);
        assert(enc_strs(ss.push(s)) =~= enc_strs(ss) + enc_str(s));
    }
}

/// Append a string list's encoding (without its count).
fn e_strs(out: &mut Vec<u8>, v: &Vec<String>)
    ensures
        final(out)@ == old(out)@ + enc_strs(strs_view(v@)),
{
    let mut i: usize = 0;
    while i < v.len()
        invariant
            i <= v@.len(),
            out@ == old(out)@ + enc_strs(strs_view(v@).subrange(0, i as int)),
        decreases v@.len() - i,
    {
        proof {
            assert(strs_view(v@).subrange(0, i as int).push(v@[i as int]@) =~= strs_view(
                v@,
            ).subrange(0, i + 1));
            lemma_enc_strs_push(strs_view(v@).subrange(0, i as int), v@[i as int]@);
        }
        e_str(out, &v[i]);
        i = i + 1;
    }
    proof {
        assert(strs_view(v@).subrange(0, v@.len() as int) =~= strs_view(v@));
    }
}

/// Encode a message into a fresh byte frame.
pub fn encode_message(m: &Message) -> (out: Vec<u8>)
    ensures
        out@ == enc_message(m@),
{
    let mut out: Vec<u8> = Vec::new();
    match m {
        Message::Error { message } => {
            out.push(0u8);
            e_str(&mut out, message);
            proof {
                assert(out@ =~= enc_message(m@));
            }
        },
        Message::Request(request) => {
            out.push(1u8);
            e_request(&mut out, request);
            proof {
                assert(out@ =~= enc_message(m@));
            }
        },
        Message::Connect { configuration, current_view, epoch } => {
            out.push(2u8);
            e_u64(&mut out, configuration.len() as u64);
            e_strs(&mut out, configuration);
            e_u64(&mut out, *current_view);
            e_u64(&mut out, *epoch);
            proof {
                assert(out@ =~= enc_message(m@));
            }
        },
        Message::Reply { client_id, view_number, request_id, result } => {
            out.push(3u8);
            e_u64(&mut out, *client_id);
            e_u64(&mut out, *view_number);
            e_u64(&mut out, *request_id);
            e_opt_output(&mut out, result);
            proof {
                assert(out@ =~= enc_message(m@));
            }
        },
        Message::Prepare { view_number, op_number, commit_number, request } => {
            out.push(4u8);
            e_u64(&mut out, *view_number);
            e_u64(&mut out, *op_number);
            e_u64(&mut out, *commit_number);
            e_request(&mut out, request);
            proof {
                assert(out@ =~= enc_message(m@));
            }
        },
        Message::PrepareOk { view_number, replica_number, op_number, commit_number } => {
            out.push(5u8);
            e_u64(&mut out, *view_number);
            e_u64(&mut out, *replica_number);
            e_u64(&mut out, *op_number);
            e_u64(&mut out, *commit_number);
            proof {
                assert(out@ =~= enc_message(m@));
            }
        },
        Message::Commit { op_number, commit_number, view_number } => {
            out.push(6u8);
            e_u64(&mut out, *op_number);
            e_u64(&mut out, *commit_number);
            e_u64(&mut out, *view_number);
            proof {
                assert(out@ =~= enc_message(m@));
            }
        },
    }
    out
}

// ---------------------------------------------------------------------
// Executable decoding.
// ---------------------------------------------------------------------
/// Relies on `String::from_utf8`: it succeeds exactly on valid UTF-8 and
/// returns the string those bytes spell.
#[verifier::external_body]
fn string_from_utf8(v: Vec<u8>) -> (r: Option<String>)
    ensures
        r is Some <==> valid_utf8(v@),
        r matches Some(s) ==> s@ == decode_utf8(v@),
{
    String::from_utf8(v).ok()
}

/// Read an integer.
fn d_u64(b: &Vec<u8>, pos: usize) -> (r: Option<(u64, usize)>)
    ensures
        match r {
            Some(vp) => dec_u64(b@, pos as int) == Some((vp.0, vp.1 as int)),
            None => dec_u64(b@, pos as int) is None,
        },
{
    if pos <= b.len() && b.len() - pos >= 8 {
        let s = slice_subrange(b.as_slice(), pos, pos + 8);
        Some((u64_from_le_bytes(s), pos + 8))
    } else {
        None
    }
}

/// Read a string.
fn d_str(b: &Vec<u8>, pos: usize) -> (r: Option<(String, usize)>)
    ensures
        match r {
            Some(sp) => (dec_str(b@, pos as int) matches Some(x) && x.0 == sp.0@ && x.1 == sp.1
                as int),
            None => dec_str(b@, pos as int) is None,
        },
{
    match d_u64(b, pos) {
        None => None,
        Some((n, p)) => {
            if n <= (b.len() - p) as u64 {
                let end = p + (n as usize);
                let bytes = slice_to_vec(slice_subrange(b.as_slice(), p, end));
                match string_from_utf8(bytes) {
                    Some(s) => Some((s, end)),
                    None => None,
                }
            } else {
                None
            }
        },
    }
}

/// Read an optional output.
fn d_opt_output(b: &Vec<u8>, pos: usize) -> (r: Option<(Option<Output>, usize)>)
    ensures
        match r {
            Some(op) => (dec_opt_output(b@, pos as int) matches Some(x) && x.0 == op.0 && x.1
                == op.1 as int),
            None => dec_opt_output(b@, pos as int) is None,
        },
{
    if pos >= b.len() {
        return None;
    }
    let tag = b[pos];
    if tag == 0u8 {
        Some((None, pos + 1))
    } else if tag == 1u8 {
        if pos + 1 >= b.len() {
            return None;
        }
        let tag2 = b[pos + 1];
        if tag2 == 0u8 {
            Some((Some(Output::Done), pos + 2))
        } else if tag2 == 1u8 {
            Some((Some(Output::Value(None)), pos + 2))
        } else if tag2 == 2u8 {
            match d_u64(b, pos + 2) {
                None => None,
                Some((v, p)) => Some((Some(Output::Value(Some(v))), p)),
            }
        } else {
            None
        }
    } else {
        None
    }
}

/// Read an operation.
fn d_op(b: &Vec<u8>, pos: usize) -> (r: Option<(Op, usize)>)
    ensures
        match r {
            Some(op) => (dec_op(b@, pos as int) matches Some(x) && x.0 == op.0@ && x.1 == op.1
                as int),
            None => dec_op(b@, pos as int) is None,
        },
{
    if pos >= b.len() {
        return None;
    }
    let tag = b[pos];
    if tag == 0u8 {
        match d_str(b, pos + 1) {
            None => None,
            Some((k, p)) => match d_u64(b, p) {
                None => None,
                Some((v, p2)) => Some((Op::Put(k, v), p2)),
            },
        }
    } else if tag == 1u8 {
        match d_str(b, pos + 1) {
            None => None,
            Some((k, p)) => Some((Op::Get(k), p)),
        }
    } else if tag == 2u8 {
        match d_str(b, pos + 1) {
            None => None,
            Some((k, p)) => Some((Op::Del(k), p)),
        }
    } else {
        None
    }
}

/// Read a client request.
fn d_request(b: &Vec<u8>, pos: usize) -> (r: Option<(ClientRequest, usize)>)
    ensures
        match r {
            Some(rp) => (dec_request(b@, pos as int) matches Some(x) && x.0 == rp.0@ && x.1
                == rp.1 as int),
            None => dec_request(b@, pos as int) is None,
        },
{
    match d_op(b, pos) {
        None => None,
        Some((op, p1)) => match d_u64(b, p1) {
            None => None,
            Some((client_id, p2)) => match d_u64(b, p2) {
                None => None,
                Some((request_number, p3)) => match d_opt_output(b, p3) {
                    None => None,
                    Some((result, p4)) => Some(
                        (ClientRequest { op, client_id, request_number, result }, p4),
                    ),
                },
            },
        },
    }
}

/// Read `count` strings.
fn d_strs(b: &Vec<u8>, pos: usize, count: u64) -> (r: Option<(Vec<String>, usize)>)
    ensures
        match r {
            Some(sp) => (dec_strs(b@, pos as int, count as int) matches Some(x) && x.0
                == strs_view(sp.0@) && x.1 == sp.1 as int),
            None => dec_strs(b@, pos as int, count as int) is None,
        },
    decreases count,
{
    if count == 0 {
        let empty: Vec<String> = Vec::new();
        proof {
            assert(strs_view(empty@) =~= Seq::<Seq<char>>::empty());
        }
        Some((empty, pos))
    } else {
        match d_str(b, pos) {
            None => None,
            Some((s, p)) => match d_strs(b, p, count - 1) {
                None => None,
                Some((ss, p2)) => {
                    let mut ss = ss;
                    ss.insert(0, s);
                    proof {
                        let tail = (dec_strs(b@, p as int, count as int - 1)->0).0;
                        assert(strs_view(ss@) =~= seq![s@] + tail);
                    }
                    Some((ss, p2))
                },
            },
        }
    }
}

/// Decode a byte frame into a message; `None` when the bytes are not
/// exactly one well-formed frame.
pub fn decode_message(b: &Vec<u8>) -> (r: Option<Message>)
    ensures
        match r {
            Some(m) => dec_message(b@) == Some(m@),
            None => dec_message(b@) is None,
        },
{
    if b.len() < 1 {
        return None;
    }
    let tag = b[0];
    if tag == 0u8 {
        match d_str(b, 1) {
            Some((message, p)) => if p == b.len() {
                Some(Message::Error { message })
            } else {
                None
            },
            None => None,
        }
    } else if tag == 1u8 {
        match d_request(b, 1) {
            Some((request, p)) => if p == b.len() {
                Some(Message::Request(request))
            } else {
                None
            },
            None => None,
        }
    } else if tag == 2u8 {
        match d_u64(b, 1) {
            Some((count, p0)) => match d_strs(b, p0, count) {
                Some((configuration, p1)) => match d_u64(b, p1) {
                    Some((current_view, p2)) => match d_u64(b, p2) {
                        Some((epoch, p3)) => if p3 == b.len() {
                            let m = Message::Connect { configuration, current_view, epoch };
                            proof {
                                assert(m@ matches MessageV::Connect { configuration: c, .. }
                                    && c =~= (dec_strs(b@, p0 as int, count as int)->0).0);
                            }
                            Some(m)
                        } else {
                            None
                        },
                        None => None,
                    },
                    None => None,
                },
                None => None,
            },
            None => None,
        }
    } else if tag == 3u8 {
        match d_u64(b, 1) {
            Some((client_id, p1)) => match d_u64(b, p1) {
                Some((view_number, p2)) => match d_u64(b, p2) {
                    Some((request_id, p3)) => match d_opt_output(b, p3) {
                        Some((result, p4)) => if p4 == b.len() {
                            Some(Message::Reply { client_id, view_number, request_id, result })
                        } else {
                            None
                        },
                        None => None,
                    },
                    None => None,
                },
                None => None,
            },
            None => None,
        }
    } else if tag == 4u8 {
        match d_u64(b, 1) {
            Some((view_number, p1)) => match d_u64(b, p1) {
                Some((op_number, p2)) => match d_u64(b, p2) {
                    Some((commit_number, p3)) => match d_request(b, p3) {
                        Some((request, p4)) => if p4 == b.len() {
                            Some(
                                Message::Prepare {
                                    view_number,
                                    op_number,
                                    commit_number,
                                    request,
                                },
                            )
                        } else {
                            None
                        },
                        None => None,
                    },
                    None => None,
                },
                None => None,
            },
            None => None,
        }
    } else if tag == 5u8 {
        match d_u64(b, 1) {
            Some((view_number, p1)) => match d_u64(b, p1) {
                Some((replica_number, p2)) => match d_u64(b, p2) {
                    Some((op_number, p3)) => match d_u64(b, p3) {
                        Some((commit_number, p4)) => if p4 == b.len() {
                            Some(
                                Message::PrepareOk {
                                    view_number,
                                    replica_number,
                                    op_number,
                                    commit_number,
                                },
                            )
                        } else {
                            None
                        },
                        None => None,
                    },
                    None => None,
                },
                None => None,
            },
            None => None,
        }
    } else if tag == 6u8 {
        match d_u64(b, 1) {
            Some((op_number, p1)) => match d_u64(b, p1) {
                Some((commit_number, p2)) => match d_u64(b, p2) {
                    Some((view_number, p3)) => if p3 == b.len() {
                        Some(Message::Commit { op_number, commit_number, view_number })
                    } else {
                        None
                    },
                    None => None,
                },
                None => None,
            },
            None => None,
        }
    } else {
        None
    }
}

} // verus!
