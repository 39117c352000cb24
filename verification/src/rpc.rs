//! The exchange engine's computational core: building the request
//! envelope, framing it, and classifying what came back. One call sends
//! one envelope and yields exactly one outcome: success, the peer's own
//! error object passed through, or a transport fault.

use crate::frame::FrameError;
use crate::frame::FrameSpec;
use crate::frame::decode_frame;
use crate::frame::encode_frame;
use crate::frame::frame_bytes;
use crate::frame::frame_scan;
use crate::json::JsonSpec;
use crate::json::JsonValue;
use crate::json::members_of;
use crate::json::ser;
use crate::json::vals_of;
use crate::json::wf;
use vstd::prelude::*;

verus! {

broadcast use vstd::seq::group_seq_axioms, vstd::std_specs::vec::group_vec_axioms;

// ---------------------------------------------------------------------------
// Envelope keys and fixed strings, as byte sequences.
// ---------------------------------------------------------------------------

pub open spec fn key_jsonrpc() -> Seq<u8> {
    seq![106u8, 115u8, 111u8, 110u8, 114u8, 112u8, 99u8]
}

pub open spec fn key_id() -> Seq<u8> {
    seq![105u8, 100u8]
}

pub open spec fn key_method() -> Seq<u8> {
    seq![109u8, 101u8, 116u8, 104u8, 111u8, 100u8]
}

pub open spec fn key_params() -> Seq<u8> {
    seq![112u8, 97u8, 114u8, 97u8, 109u8, 115u8]
}

pub open spec fn key_error() -> Seq<u8> {
    seq![101u8, 114u8, 114u8, 111u8, 114u8]
}

pub open spec fn key_result() -> Seq<u8> {
    seq![114u8, 101u8, 115u8, 117u8, 108u8, 116u8]
}

pub open spec fn key_code() -> Seq<u8> {
    seq![99u8, 111u8, 100u8, 101u8]
}

pub open spec fn key_message() -> Seq<u8> {
    seq![109u8, 101u8, 115u8, 115u8, 97u8, 103u8, 101u8]
}

pub open spec fn key_data() -> Seq<u8> {
    seq![100u8, 97u8, 116u8, 97u8]
}

/// The protocol version string `2.0`.
pub open spec fn two_zero() -> Seq<u8> {
    seq![50u8, 46u8, 48u8]
}

/// The fallback text for an error object without a message.
pub open spec fn unknown_error_text() -> Seq<u8> {
    seq![85u8, 110u8, 107u8, 110u8, 111u8, 119u8, 110u8, 32u8, 101u8, 114u8, 114u8, 111u8, 114u8]
}

// ---------------------------------------------------------------------------
// Field lookup on object values.
// ---------------------------------------------------------------------------

/// The value under `key` among the members, the last occurrence winning.
pub open spec fn lookup_members(o: Seq<(Seq<u8>, JsonSpec)>, key: Seq<u8>) -> Option<JsonSpec>
    decreases o.len(),
{
    if o.len() == 0 {
        None
    } else if o.last().0 == key {
        Some(o.last().1)
    } else {
        lookup_members(o.drop_last(), key)
    }
}

/// The value under `key`, if the value is an object that has one.
pub open spec fn lookup(j: JsonSpec, key: Seq<u8>) -> Option<JsonSpec> {
    match j {
        JsonSpec::Obj(o) => lookup_members(o, key),
        _ => None,
    }
}

// ---------------------------------------------------------------------------
// The request envelope.
// ---------------------------------------------------------------------------

/// The envelope sent for one request: protocol version, identifier, method
/// name and parameters, in this order.
pub open spec fn rpc_request_spec(id: int, method: Seq<u8>, params: JsonSpec) -> JsonSpec {
    JsonSpec::Obj(
        seq![
            (key_jsonrpc(), JsonSpec::Str(two_zero())),
            (key_id(), JsonSpec::Int(id)),
            (key_method(), JsonSpec::Str(method)),
            (key_params(), params),
        ],
    )
}

// ---------------------------------------------------------------------------
// Outcomes.
// ---------------------------------------------------------------------------

/// A transport-level fault: the call failed without the peer answering it.
#[derive(Clone, Copy, Debug, PartialEq, Eq, Structural)]
pub enum TransportFault {
    /// No server is running under the identifier.
    NotRunning,
    /// The deadline passed before a complete reply arrived.
    Timeout,
    /// Reading or writing the pipe failed.
    Io,
    /// The pipe's guarding lock was poisoned.
    Poisoned,
    /// The reply was not a well-formed frame.
    Frame(FrameError),
    /// The reply's identifier was not the request's.
    IdMismatch,
}

/// The mathematical shape of an exchange's outcome.
pub enum OutcomeSpec {
    Success(JsonSpec),
    AppError(int, Seq<u8>, Option<JsonSpec>),
    Transport(TransportFault),
}

/// What one exchange produced: the peer's result, the peer's own error
/// object passed through, or a transport fault. Never more than one.
#[derive(Debug, PartialEq, Eq)]
pub enum RpcOutcome {
    /// The reply's `result` field, or an empty object if it had none.
    Success(JsonValue),
    /// The reply's `error` field: code, message, and optional data.
    ApplicationError(i64, Vec<u8>, Option<JsonValue>),
    /// The call itself failed.
    TransportError(TransportFault),
}

impl RpcOutcome {
    /// The mathematical outcome this stands for.
    pub open spec fn spec_out(self) -> OutcomeSpec {
        match self {
            RpcOutcome::Success(v) => OutcomeSpec::Success(v.spec_val()),
            RpcOutcome::ApplicationError(c, m, d) => OutcomeSpec::AppError(
                c as int,
                m@,
                match d {
                    Some(v) => Some(v.spec_val()),
                    None => None,
                },
            ),
            RpcOutcome::TransportError(f) => OutcomeSpec::Transport(f),
        }
    }
}

/// The error code of an error object: its `code` field if that is an
/// integer, `0` otherwise.
pub open spec fn err_code(e: JsonSpec) -> int {
    match lookup(e, key_code()) {
        Some(JsonSpec::Int(c)) => c,
        _ => 0,
    }
}

/// The message of an error object: its `message` field if that is a
/// string, a fixed fallback text otherwise.
pub open spec fn err_message(e: JsonSpec) -> Seq<u8> {
    match lookup(e, key_message()) {
        Some(JsonSpec::Str(m)) => m,
        _ => unknown_error_text(),
    }
}

/// Classification of a decoded reply against the request's identifier:
/// a reply whose `id` is not the request's is a transport fault; a reply
/// with an `error` member passes that error through; anything else
/// succeeds with the `result` member or an empty object.
pub open spec fn classify_spec(j: JsonSpec, expected_id: int) -> OutcomeSpec {
    if lookup(j, key_id()) != Some(JsonSpec::Int(expected_id)) {
        OutcomeSpec::Transport(TransportFault::IdMismatch)
    } else {
        match lookup(j, key_error()) {
            Some(e) => OutcomeSpec::AppError(err_code(e), err_message(e), lookup(e, key_data())),
            None => match lookup(j, key_result()) {
                Some(res) => OutcomeSpec::Success(res),
                None => OutcomeSpec::Success(JsonSpec::Obj(Seq::empty())),
            },
        }
    }
}

// ---------------------------------------------------------------------------
// Executable helpers.
// ---------------------------------------------------------------------------

/// Byte-sequence equality.
pub fn bytes_eq(a: &Vec<u8>, b: &Vec<u8>) -> (r: bool)
    ensures
        r == (a@ == b@),
{
    if a.len() != b.len() {
        proof {
            assert(a@ != b@);
        }
        return false;
    }
    let mut i: usize = 0;
    while i < a.len()
        invariant
            i <= a.len(),
            a@.len() == b@.len(),
            forall|k: int| 0 <= k < i ==> a@[k] == b@[k],
        decreases a.len() - i,
    {
        if a[i] != b[i] {
            return false;
        }
        i = i + 1;
    }
    proof {
        assert(a@ =~= b@);
    }
    true
}

/// A deep copy of a structured-data value, standing for the same model.
#[verifier::loop_isolation(false)]
#[verifier::rlimit(80)]
pub fn clone_value(v: &JsonValue) -> (r: JsonValue)
    ensures
        r.spec_val() == v.spec_val(),
    decreases *v,
{
    match v {
        JsonValue::Null => JsonValue::Null,
        JsonValue::Bool(b) => JsonValue::Bool(*b),
        JsonValue::Int(i) => JsonValue::Int(*i),
        JsonValue::NumRaw(n) => {
            let mut c: Vec<u8> = Vec::new();
            let mut t: usize = 0;
            while t < n.len()
                invariant
                    t <= n@.len(),
                    c@ == n@.take(t as int),
                decreases n@.len() - t,
            {
                proof {
                    assert(n@.take(t + 1) =~= n@.take(t as int).push(n@[t as int]));
                }
                c.push(n[t]);
                t = t + 1;
            }
            proof {
                assert(n@.take(n@.len() as int) =~= n@);
            }
            JsonValue::NumRaw(c)
        },
        JsonValue::Str(s) => {
            let mut c: Vec<u8> = Vec::new();
            let mut t: usize = 0;
            while t < s.len()
                invariant
                    t <= s@.len(),
                    c@ == s@.take(t as int),
                decreases s@.len() - t,
            {
                proof {
                    assert(s@.take(t + 1) =~= s@.take(t as int).push(s@[t as int]));
                }
                c.push(s[t]);
                t = t + 1;
            }
            proof {
                assert(s@.take(s@.len() as int) =~= s@);
            }
            JsonValue::Str(c)
        },
        JsonValue::Array(a) => {
            let mut c: Vec<JsonValue> = Vec::new();
            let mut t: usize = 0;
            while t < a.len()
                invariant
                    t <= a@.len(),
                    vals_of(c@) == vals_of(a@).take(t as int),
                decreases a@.len() - t,
            {
                proof {
                    assert(*v is Array);
                    assert(decreases_to!(*v => v->Array_0));
                    assert(v->Array_0 == *a);
                    assert(decreases_to!(*a => a@));
                    assert(decreases_to!(a@ => a@[t as int]));
                }
                let ghost oldc = c@;
                let e = clone_value(&a[t]);
                c.push(e);
                proof {
                    crate::json::lemma_vals_of_push(oldc, e);
                    assert(c@ =~= oldc.push(e));
                    assert(vals_of(a@).take(t + 1) =~= vals_of(a@).take(t as int).push(
                        a@[t as int].spec_val(),
                    ));
                }
                t = t + 1;
            }
            proof {
                assert(vals_of(a@).take(a@.len() as int) =~= vals_of(a@));
            }
            JsonValue::Array(c)
        },
        JsonValue::Object(o) => {
            let mut c: Vec<(Vec<u8>, JsonValue)> = Vec::new();
            let mut t: usize = 0;
            while t < o.len()
                invariant
                    t <= o@.len(),
                    members_of(c@) == members_of(o@).take(t as int),
                decreases o@.len() - t,
            {
                proof {
                    assert(*v is Object);
                    assert(decreases_to!(*v => v->Object_0));
                    assert(v->Object_0 == *o);
                    assert(decreases_to!(*o => o@));
                    assert(decreases_to!(o@ => o@[t as int]));
                    assert(decreases_to!(o@[t as int] => o@[t as int].1));
                }
                let kv = &o[t];
                let mut kc: Vec<u8> = Vec::new();
                let mut u: usize = 0;
                while u < kv.0.len()
                    invariant
                        u <= kv.0@.len(),
                        kc@ == kv.0@.take(u as int),
                    decreases kv.0@.len() - u,
                {
                    proof {
                        assert(kv.0@.take(u + 1) =~= kv.0@.take(u as int).push(kv.0@[u as int]));
                    }
                    kc.push(kv.0[u]);
                    u = u + 1;
                }
                proof {
                    assert(kv.0@.take(kv.0@.len() as int) =~= kv.0@);
                }
                let e = clone_value(&kv.1);
                let ghost oldc = c@;
                let ghost pair = (kc, e);
                c.push((kc, e));
                proof {
                    crate::json::lemma_members_of_push(oldc, pair);
                    assert(c@ =~= oldc.push(pair));
                    assert(members_of(o@).take(t + 1) =~= members_of(o@).take(t as int).push(
                        (o@[t as int].0@, o@[t as int].1.spec_val()),
                    ));
                }
                t = t + 1;
            }
            proof {
                assert(members_of(o@).take(o@.len() as int) =~= members_of(o@));
            }
            JsonValue::Object(c)
        },
    }
}

/// The member of an object value under `key`, the last occurrence winning.
#[verifier::loop_isolation(false)]
pub fn obj_get(v: &JsonValue, key: &Vec<u8>) -> (r: Option<JsonValue>)
    ensures
        r is Some ==> lookup(v.spec_val(), key@) == Some(r->Some_0.spec_val()),
        r is None ==> lookup(v.spec_val(), key@) is None,
{
    match v {
        JsonValue::Object(o) => {
            let ghost mem = members_of(o@);
            let mut i: usize = o.len();
            proof {
                assert(mem.take(o@.len() as int) =~= mem);
            }
            while i > 0
                invariant
                    i <= o@.len(),
                    mem == members_of(o@),
                    lookup_members(mem, key@) == lookup_members(mem.take(i as int), key@),
                decreases i,
            {
                i = i - 1;
                if bytes_eq(&o[i].0, key) {
                    proof {
                        assert(mem.take(i + 1).last() == mem[i as int]);
                        assert(mem[i as int].0 == key@);
                    }
                    return Some(clone_value(&o[i].1));
                }
                proof {
                    assert(mem.take(i + 1).last() == mem[i as int]);
                    assert(mem.take(i + 1).drop_last() =~= mem.take(i as int));
                }
            }
            proof {
                assert(mem.take(0) =~= Seq::<(Seq<u8>, JsonSpec)>::empty());
            }
            None
        },
        _ => None,
    }
}


/// A fresh copy of the given bytes.
pub fn copy_bytes(a: &Vec<u8>) -> (r: Vec<u8>)
    ensures
        r@ == a@,
{
    let mut c: Vec<u8> = Vec::new();
    let mut t: usize = 0;
    proof {
        assert(a@.take(0) =~= Seq::<u8>::empty());
    }
    while t < a.len()
        invariant
            t <= a@.len(),
            c@ == a@.take(t as int),
        decreases a@.len() - t,
    {
        proof {
            assert(a@.take(t + 1) =~= a@.take(t as int).push(a@[t as int]));
        }
        c.push(a[t]);
        t = t + 1;
    }
    proof {
        assert(a@.take(a@.len() as int) =~= a@);
    }
    c
}

fn key_bytes_jsonrpc() -> (r: Vec<u8>)
    ensures
        r@ == key_jsonrpc(),
{
    let mut k: Vec<u8> = Vec::new();
    k.push(106);
    k.push(115);
    k.push(111);
    k.push(110);
    k.push(114);
    k.push(112);
    k.push(99);
    proof {
        assert(k@ =~= key_jsonrpc());
    }
    k
}

fn key_bytes_id() -> (r: Vec<u8>)
    ensures
        r@ == key_id(),
{
    let mut k: Vec<u8> = Vec::new();
    k.push(105);
    k.push(100);
    proof {
        assert(k@ =~= key_id());
    }
    k
}

fn key_bytes_method() -> (r: Vec<u8>)
    ensures
        r@ == key_method(),
{
    let mut k: Vec<u8> = Vec::new();
    k.push(109);
    k.push(101);
    k.push(116);
    k.push(104);
    k.push(111);
    k.push(100);
    proof {
        assert(k@ =~= key_method());
    }
    k
}

fn key_bytes_params() -> (r: Vec<u8>)
    ensures
        r@ == key_params(),
{
    let mut k: Vec<u8> = Vec::new();
    k.push(112);
    k.push(97);
    k.push(114);
    k.push(97);
    k.push(109);
    k.push(115);
    proof {
        assert(k@ =~= key_params());
    }
    k
}

fn key_bytes_error() -> (r: Vec<u8>)
    ensures
        r@ == key_error(),
{
    let mut k: Vec<u8> = Vec::new();
    k.push(101);
    k.push(114);
    k.push(114);
    k.push(111);
    k.push(114);
    proof {
        assert(k@ =~= key_error());
    }
    k
}

fn key_bytes_result() -> (r: Vec<u8>)
    ensures
        r@ == key_result(),
{
    let mut k: Vec<u8> = Vec::new();
    k.push(114);
    k.push(101);
    k.push(115);
    k.push(117);
    k.push(108);
    k.push(116);
    proof {
        assert(k@ =~= key_result());
    }
    k
}

fn key_bytes_code() -> (r: Vec<u8>)
    ensures
        r@ == key_code(),
{
    let mut k: Vec<u8> = Vec::new();
    k.push(99);
    k.push(111);
    k.push(100);
    k.push(101);
    proof {
        assert(k@ =~= key_code());
    }
    k
}

fn key_bytes_message() -> (r: Vec<u8>)
    ensures
        r@ == key_message(),
{
    let mut k: Vec<u8> = Vec::new();
    k.push(109);
    k.push(101);
    k.push(115);
    k.push(115);
    k.push(97);
    k.push(103);
    k.push(101);
    proof {
        assert(k@ =~= key_message());
    }
    k
}

fn key_bytes_data() -> (r: Vec<u8>)
    ensures
        r@ == key_data(),
{
    let mut k: Vec<u8> = Vec::new();
    k.push(100);
    k.push(97);
    k.push(116);
    k.push(97);
    proof {
        assert(k@ =~= key_data());
    }
    k
}

/// Builds the request envelope for one call.
pub fn build_request(id: u64, method: &Vec<u8>, params: JsonValue) -> (r: JsonValue)
    requires
        id <= i64::MAX as u64,
    ensures
        r.spec_val() == rpc_request_spec(id as int, method@, params.spec_val()),
{
    let mut two: Vec<u8> = Vec::new();
    two.push(50);
    two.push(46);
    two.push(48);
    proof {
        assert(two@ =~= two_zero());
    }
    let mut members: Vec<(Vec<u8>, JsonValue)> = Vec::new();
    members.push((key_bytes_jsonrpc(), JsonValue::Str(two)));
    members.push((key_bytes_id(), JsonValue::Int(id as i64)));
    members.push((key_bytes_method(), JsonValue::Str(copy_bytes(method))));
    members.push((key_bytes_params(), params));
    let r = JsonValue::Object(members);
    proof {
        assert(r.spec_val() is Obj);
        assert(members_of(members@) =~= rpc_request_spec(
            id as int,
            method@,
            params.spec_val(),
        )->Obj_0);
    }
    r
}

/// Builds and frames the request envelope: these are the exact bytes
/// written to the subprocess for one call.
pub fn encode_request(id: u64, method: &Vec<u8>, params: JsonValue) -> (r: Vec<u8>)
    requires
        id <= i64::MAX as u64,
    ensures
        r@ == frame_bytes(ser(rpc_request_spec(id as int, method@, params.spec_val()))),
{
    let env = build_request(id, method, params);
    encode_frame(&env)
}

/// Classifies a decoded reply against the request's identifier.
pub fn classify_response(v: &JsonValue, expected_id: u64) -> (r: RpcOutcome)
    requires
        expected_id <= i64::MAX as u64,
    ensures
        r.spec_out() == classify_spec(v.spec_val(), expected_id as int),
{
    let idv = obj_get(v, &key_bytes_id());
    let id_ok = match &idv {
        Some(JsonValue::Int(i)) => *i == expected_id as i64,
        _ => false,
    };
    if !id_ok {
        return RpcOutcome::TransportError(TransportFault::IdMismatch);
    }
    match obj_get(v, &key_bytes_error()) {
        Some(e) => {
            let code: i64 = match obj_get(&e, &key_bytes_code()) {
                Some(JsonValue::Int(c)) => c,
                Some(_) => 0,
                None => 0,
            };
            let msg: Vec<u8> = match obj_get(&e, &key_bytes_message()) {
                Some(JsonValue::Str(m)) => m,
                Some(_) => unknown_error_bytes(),
                None => unknown_error_bytes(),
            };
            let data = obj_get(&e, &key_bytes_data());
            RpcOutcome::ApplicationError(code, msg, data)
        },
        None => match obj_get(v, &key_bytes_result()) {
            Some(res) => RpcOutcome::Success(res),
            None => {
                let empty: Vec<(Vec<u8>, JsonValue)> = Vec::new();
                let r = RpcOutcome::Success(JsonValue::Object(empty));
                proof {
                    assert(members_of(Seq::<(Vec<u8>, JsonValue)>::empty()) =~= Seq::<
                        (Seq<u8>, JsonSpec),
                    >::empty());
                }
                r
            },
        },
    }
}

/// The fallback message text for an error object without one.
fn unknown_error_bytes() -> (r: Vec<u8>)
    ensures
        r@ == unknown_error_text(),
{
    let mut k: Vec<u8> = Vec::new();
    k.push(85);
    k.push(110);
    k.push(107);
    k.push(110);
    k.push(111);
    k.push(119);
    k.push(110);
    k.push(32);
    k.push(101);
    k.push(114);
    k.push(114);
    k.push(111);
    k.push(114);
    proof {
        assert(k@ =~= unknown_error_text());
    }
    k
}

/// What one read attempt against the subprocess ended in. The surrounding
/// application performs the read; this library decides what it means.
pub enum ReadEvent {
    /// The reply bytes gathered before the stream ended or the frame was
    /// complete.
    Reply(Vec<u8>),
    /// The deadline passed first.
    TimedOut,
    /// The operating-system read or write failed.
    Failed,
    /// A pipe guard's lock was poisoned.
    Poisoned,
}

/// The outcome of one full exchange, given how the read attempt ended.
/// A timely reply is decoded and classified; a missing or broken reply is
/// a transport fault, never a panic.
pub fn exchange_outcome(ev: ReadEvent, expected_id: u64) -> (r: RpcOutcome)
    requires
        expected_id <= i64::MAX as u64,
    ensures
        ev is TimedOut ==> r == RpcOutcome::TransportError(TransportFault::Timeout),
        ev is Failed ==> r == RpcOutcome::TransportError(TransportFault::Io),
        ev is Poisoned ==> r == RpcOutcome::TransportError(TransportFault::Poisoned),
        ev is Reply ==> {
            let buf = ev->Reply_0@;
            &&& (frame_scan(buf) is NeedMore ==> r == RpcOutcome::TransportError(
                TransportFault::Frame(FrameError::Truncated),
            ))
            &&& (forall|e: FrameError|
                frame_scan(buf) == FrameSpec::Bad(e) ==> r == RpcOutcome::TransportError(
                    TransportFault::Frame(e),
                ))
            &&& (forall|j: JsonSpec|
                wf(j) && buf == frame_bytes(ser(j)) ==> #[trigger] r.spec_out() == classify_spec(
                    j,
                    expected_id as int,
                ))
        },
{
    match ev {
        ReadEvent::Reply(buf) => match decode_frame(&buf) {
            Ok(p) => classify_response(&p.0, expected_id),
            Err(e) => RpcOutcome::TransportError(TransportFault::Frame(e)),
        },
        ReadEvent::TimedOut => RpcOutcome::TransportError(TransportFault::Timeout),
        ReadEvent::Failed => RpcOutcome::TransportError(TransportFault::Io),
        ReadEvent::Poisoned => RpcOutcome::TransportError(TransportFault::Poisoned),
    }
}

} // verus!
