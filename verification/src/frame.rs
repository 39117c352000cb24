//! The frame codec: a payload travels as an ASCII header line
//! `Content-Length: <N>` followed by a blank line and exactly `N` body
//! bytes. Encoding writes the canonical header; decoding reads
//! newline-delimited header lines until the blank line, extracts the
//! declared length, takes exactly that many body bytes and parses them.

use crate::json::JsonSpec;
use crate::json::JsonValue;
use crate::json::dec_digits;
use crate::json::digits_end;
use crate::json::digits_val;
use crate::json::is_digit;
use crate::json::lemma_dec_digits_shape;
use crate::json::lemma_dec_digits_val;
use crate::json::ser;
use crate::json::to_bytes;
use crate::json::wf;
use crate::parse::lemma_digits_end_char;
use crate::parse::lemma_digits_end_pins;
use crate::parse::parse_value;
use crate::parse::read_digits_val;
use crate::parse::scan_digits;
use crate::parse::value_encoded_at;
use vstd::prelude::*;

verus! {

broadcast use vstd::seq::group_seq_axioms, vstd::std_specs::vec::group_vec_axioms;

/// Why a frame could not be decoded from a closed stream.
#[derive(Clone, Copy, Debug, PartialEq, Eq, Structural)]
pub enum FrameError {
    /// The stream ended before the header's blank line or before the
    /// declared number of body bytes.
    Truncated,
    /// The headers carried no `Content-Length` line.
    MissingLength,
    /// A `Content-Length` line carried something other than a number.
    BadLength,
    /// The body bytes did not parse as a structured-data value.
    BadBody,
}

/// One step of decoding from a stream that may still grow.
#[derive(Debug)]
pub enum FrameStep {
    /// The buffer does not yet hold a whole frame.
    NeedMore,
    /// A whole frame: its payload and how many bytes it occupied.
    Frame(JsonValue, usize),
    /// The buffer can never become a frame.
    Bad(FrameError),
}

// ---------------------------------------------------------------------------
// The header bytes, mathematically.
// ---------------------------------------------------------------------------

/// The ASCII bytes of `Content-Length:`.
pub open spec fn cl_name() -> Seq<u8> {
    seq![67u8, 111u8, 110u8, 116u8, 101u8, 110u8, 116u8, 45u8, 76u8, 101u8, 110u8, 103u8, 116u8, 104u8, 58u8]
}

/// The canonical header for a body of `n` bytes:
/// `Content-Length: <n>` and a blank line, each ended by CR LF.
pub open spec fn header_bytes(n: nat) -> Seq<u8> {
    cl_name() + seq![32u8] + dec_digits(n) + seq![13u8, 10u8, 13u8, 10u8]
}

/// A whole frame: the canonical header for the body's length, then the body.
pub open spec fn frame_bytes(body: Seq<u8>) -> Seq<u8> {
    header_bytes(body.len()) + body
}

// ---------------------------------------------------------------------------
// Header scanning, mathematically.
// ---------------------------------------------------------------------------

/// Position of the first CR LF at or after `i`, or `-1` if there is none.
pub open spec fn find_crlf(s: Seq<u8>, i: int) -> int
    decreases s.len() - i,
{
    if i < 0 || i + 2 > s.len() {
        -1
    } else if s[i] == 13 && s[i + 1] == 10 {
        i
    } else {
        find_crlf(s, i + 1)
    }
}

/// First index at or after `i` that holds neither a space nor a tab.
pub open spec fn ws_end(s: Seq<u8>, i: int) -> int
    decreases s.len() - i,
{
    if 0 <= i < s.len() && (s[i] == 32 || s[i] == 9) {
        ws_end(s, i + 1)
    } else {
        i
    }
}

/// The line `[pos, c)` begins with `Content-Length:`.
pub open spec fn cl_prefixed(s: Seq<u8>, pos: int, c: int) -> bool {
    &&& c - pos >= 15
    &&& s[pos] == 67
    &&& s[pos + 1] == 111
    &&& s[pos + 2] == 110
    &&& s[pos + 3] == 116
    &&& s[pos + 4] == 101
    &&& s[pos + 5] == 110
    &&& s[pos + 6] == 116
    &&& s[pos + 7] == 45
    &&& s[pos + 8] == 76
    &&& s[pos + 9] == 101
    &&& s[pos + 10] == 110
    &&& s[pos + 11] == 103
    &&& s[pos + 12] == 116
    &&& s[pos + 13] == 104
    &&& s[pos + 14] == 58
}

/// The value part of a `Content-Length:` line `[pos, c)` is a digit run,
/// possibly surrounded by blanks.
pub open spec fn cl_valid(s: Seq<u8>, pos: int, c: int) -> bool {
    let a = ws_end(s, pos + 15);
    let b = digits_end(s, a);
    b > a && ws_end(s, b) == c
}

/// The declared length on the `Content-Length:` line `[pos, c)`.
pub open spec fn cl_value(s: Seq<u8>, pos: int, c: int) -> nat {
    let a = ws_end(s, pos + 15);
    let b = digits_end(s, a);
    digits_val(s.subrange(a, b))
}

/// The outcome of reading header lines until the blank line.
pub enum HdrScan {
    /// No blank line yet.
    Incomplete,
    /// Blank line reached without any `Content-Length` line.
    NoLength,
    /// A `Content-Length` line whose value is not a number.
    BadValue,
    /// Headers complete: the declared length and where the body starts.
    Done { len: nat, body_start: int },
}

/// Reads header lines from `pos` until the blank line, carrying the last
/// declared length seen so far.
pub open spec fn scan_headers(s: Seq<u8>, pos: int, found: Option<nat>) -> HdrScan
    decreases s.len() - pos,
{
    let c = find_crlf(s, pos);
    if c < pos || c + 2 > s.len() {
        HdrScan::Incomplete
    } else if c == pos {
        match found {
            Some(n) => HdrScan::Done { len: n, body_start: pos + 2 },
            None => HdrScan::NoLength,
        }
    } else {
        if cl_prefixed(s, pos, c) {
            if cl_valid(s, pos, c) {
                scan_headers(s, c + 2, Some(cl_value(s, pos, c)))
            } else {
                HdrScan::BadValue
            }
        } else {
            scan_headers(s, c + 2, found)
        }
    }
}

/// What a buffer holds, at the framing level.
pub enum FrameSpec {
    /// More bytes are needed before anything can be decided.
    NeedMore,
    /// The headers are broken in the given way.
    Bad(FrameError),
    /// A complete frame: where its body starts and how long it is.
    Body { body_start: int, len: nat },
}

/// The framing-level reading of a buffer.
pub open spec fn frame_scan(s: Seq<u8>) -> FrameSpec {
    match scan_headers(s, 0, None) {
        HdrScan::Incomplete => FrameSpec::NeedMore,
        HdrScan::NoLength => FrameSpec::Bad(FrameError::MissingLength),
        HdrScan::BadValue => FrameSpec::Bad(FrameError::BadLength),
        HdrScan::Done { len, body_start } => {
            if s.len() < body_start + len {
                FrameSpec::NeedMore
            } else {
                FrameSpec::Body { body_start, len }
            }
        },
    }
}

// ---------------------------------------------------------------------------
// Facts about the scanning functions.
// ---------------------------------------------------------------------------

/// The characteristic properties of `find_crlf`.
proof fn lemma_find_crlf_char(s: Seq<u8>, i: int)
    requires
        0 <= i <= s.len(),
    ensures
        find_crlf(s, i) == -1 || i <= find_crlf(s, i),
        find_crlf(s, i) >= 0 ==> find_crlf(s, i) + 2 <= s.len() && s[find_crlf(s, i)] == 13
            && s[find_crlf(s, i) + 1] == 10,
        forall|t: int|
            i <= t < find_crlf(s, i) ==> !(#[trigger] s[t] == 13 && t + 1 < s.len() && s[t + 1]
                == 10),
        find_crlf(s, i) == -1 ==> (forall|t: int|
            i <= t && t + 2 <= s.len() ==> !(#[trigger] s[t] == 13 && s[t + 1] == 10)),
    decreases s.len() - i,
{
    if i + 2 > s.len() {
    } else if s[i] == 13 && s[i + 1] == 10 {
    } else {
        lemma_find_crlf_char(s, i + 1);
    }
}

/// `find_crlf` is pinned by a CR LF with none before it.
proof fn lemma_find_crlf_pins(s: Seq<u8>, i: int, x: int)
    requires
        0 <= i <= x,
        x + 2 <= s.len(),
        s[x] == 13,
        s[x + 1] == 10,
        forall|t: int| i <= t < x ==> #[trigger] s[t] != 13,
    ensures
        find_crlf(s, i) == x,
    decreases x - i,
{
    if i < x {
        lemma_find_crlf_pins(s, i + 1, x);
    }
}

/// `ws_end` is pinned by a blank run and its non-blank boundary.
proof fn lemma_ws_end_pins(s: Seq<u8>, i: int, x: int)
    requires
        0 <= i <= x <= s.len(),
        forall|t: int| i <= t < x ==> (#[trigger] s[t] == 32 || s[t] == 9),
        x == s.len() || !(s[x] == 32 || s[x] == 9),
    ensures
        ws_end(s, i) == x,
    decreases x - i,
{
    if i < x {
        lemma_ws_end_pins(s, i + 1, x);
    }
}


// ---------------------------------------------------------------------------
// The executable header scanner.
// ---------------------------------------------------------------------------

/// Position of the first CR LF at or after `from`.
fn find_crlf_exec(s: &Vec<u8>, from: usize) -> (r: Option<usize>)
    requires
        from <= s@.len(),
    ensures
        r is Some ==> r->Some_0 == find_crlf(s@, from as int) && from <= r->Some_0 && r->Some_0 + 2
            <= s@.len(),
        r is None ==> find_crlf(s@, from as int) == -1,
{
    let mut i: usize = from;
    loop
        invariant
            from <= i <= s@.len(),
            find_crlf(s@, from as int) == find_crlf(s@, i as int),
        decreases s@.len() - i,
    {
        if s.len() - i < 2 {
            return None;
        }
        if s[i] == 13 && s[i + 1] == 10 {
            return Some(i);
        }
        proof {
            assert(find_crlf(s@, i as int) == find_crlf(s@, i + 1));
        }
        i = i + 1;
    }
}

/// First position at or after `from` that holds neither space nor tab.
fn scan_ws(s: &Vec<u8>, from: usize) -> (r: usize)
    requires
        from <= s@.len(),
    ensures
        from <= r <= s@.len(),
        r == ws_end(s@, from as int),
{
    let mut i: usize = from;
    while i < s.len() && (s[i] == 32 || s[i] == 9)
        invariant
            from <= i <= s@.len(),
            ws_end(s@, from as int) == ws_end(s@, i as int),
        decreases s@.len() - i,
    {
        proof {
            assert(ws_end(s@, i as int) == ws_end(s@, i + 1));
        }
        i = i + 1;
    }
    proof {
        assert(ws_end(s@, i as int) == i as int);
    }
    i
}

/// The run-time outcome of header scanning. A declared length too large
/// for the accumulator is noted as such: no real buffer can complete it.
enum HdrOut {
    Incomplete,
    NoLength,
    BadValue,
    Done { len: u64, body_start: usize },
    DoneHuge,
}

/// Reads header lines until the blank line, as `scan_headers` says.
#[verifier::loop_isolation(false)]
#[verifier::rlimit(100)]
fn scan_headers_exec(s: &Vec<u8>) -> (r: HdrOut)
    ensures
        scan_headers(s@, 0, None) is Incomplete ==> r is Incomplete,
        scan_headers(s@, 0, None) is NoLength ==> r is NoLength,
        scan_headers(s@, 0, None) is BadValue ==> r is BadValue,
        scan_headers(s@, 0, None) is Done ==> (r is Done || r is DoneHuge),
        r is Done ==> scan_headers(s@, 0, None) == (HdrScan::Done {
            len: r->Done_len as nat,
            body_start: r->Done_body_start as int,
        }) && r->Done_body_start <= s@.len(),
        r is DoneHuge ==> scan_headers(s@, 0, None) is Done && scan_headers(s@, 0, None)->len
            > u64::MAX && scan_headers(s@, 0, None)->body_start >= 0,
{
    let total = s.len();
    proof {
        assert(s@.len() <= usize::MAX);
    }
    let mut pos: usize = 0;
    let mut found: u64 = 0;
    let mut has_found = false;
    let mut huge = false;
    let ghost mut gfound: Option<nat> = None;
    loop
        invariant
            pos <= s@.len(),
            scan_headers(s@, 0, None) == scan_headers(s@, pos as int, gfound),
            huge ==> gfound is Some && gfound->Some_0 > u64::MAX,
            !huge && has_found ==> gfound == Some(found as nat),
            !huge && !has_found ==> gfound is None,
        decreases s@.len() - pos,
    {
        let c = match find_crlf_exec(s, pos) {
            Some(c) => c,
            None => {
                return HdrOut::Incomplete;
            },
        };
        if c == pos {
            if huge {
                return HdrOut::DoneHuge;
            }
            if has_found {
                return HdrOut::Done { len: found, body_start: pos + 2 };
            }
            return HdrOut::NoLength;
        }
        if c - pos >= 15 && s[pos] == 67 && s[pos + 1] == 111 && s[pos + 2] == 110 && s[pos + 3]
            == 116 && s[pos + 4] == 101 && s[pos + 5] == 110 && s[pos + 6] == 116 && s[pos + 7]
            == 45 && s[pos + 8] == 76 && s[pos + 9] == 101 && s[pos + 10] == 110 && s[pos + 11]
            == 103 && s[pos + 12] == 116 && s[pos + 13] == 104 && s[pos + 14] == 58 {
            assert(cl_prefixed(s@, pos as int, c as int));
            let a = scan_ws(s, pos + 15);
            let b2 = scan_digits(s, a);
            let e2 = scan_ws(s, b2);
            if b2 > a && e2 == c {
                assert(cl_valid(s@, pos as int, c as int));
                proof {
                    lemma_digits_end_char(s@, a as int);
                }
                match read_digits_val(s, a, b2) {
                    Some(v) => {
                        found = v;
                        has_found = true;
                        huge = false;
                        proof {
                            gfound = Some(v as nat);
                            assert(gfound == Some(cl_value(s@, pos as int, c as int)));
                        }
                    },
                    None => {
                        huge = true;
                        has_found = false;
                        proof {
                            gfound = Some(cl_value(s@, pos as int, c as int));
                        }
                    },
                }
            } else {
                assert(!cl_valid(s@, pos as int, c as int));
                return HdrOut::BadValue;
            }
        } else {
            assert(!cl_prefixed(s@, pos as int, c as int));
        }
        pos = c + 2;
    }
}

// ---------------------------------------------------------------------------
// Decoding.
// ---------------------------------------------------------------------------

/// One decoding step over a buffer that may still grow: reports a complete
/// frame, asks for more bytes, or rejects the buffer. Exactly follows the
/// framing-level reading `frame_scan`; wherever the body bytes are the
/// serialization of a well-formed value, that value is returned.
#[verifier::loop_isolation(false)]
#[verifier::rlimit(100)]
pub fn decode_step(buf: &Vec<u8>) -> (r: FrameStep)
    ensures
        frame_scan(buf@) is NeedMore ==> r is NeedMore,
        forall|e: FrameError|
            frame_scan(buf@) == FrameSpec::Bad(e) ==> r == FrameStep::Bad(e),
        frame_scan(buf@) is Body ==> ({
            let bs = frame_scan(buf@)->body_start;
            let n = frame_scan(buf@)->len;
            &&& (r is Frame || r == FrameStep::Bad(FrameError::BadBody))
            &&& (r is Frame ==> r->Frame_1 == bs + n)
            &&& (forall|j: JsonSpec|
                wf(j) && buf@.subrange(bs, bs + n as int) == ser(j) ==> r is Frame
                    && #[trigger] r->Frame_0.spec_val() == j)
        }),
{
    let blen = buf.len();
    proof {
        assert(buf@.len() <= usize::MAX);
        assert(usize::MAX <= u64::MAX);
    }
    match scan_headers_exec(buf) {
        HdrOut::Incomplete => FrameStep::NeedMore,
        HdrOut::NoLength => FrameStep::Bad(FrameError::MissingLength),
        HdrOut::BadValue => FrameStep::Bad(FrameError::BadLength),
        HdrOut::DoneHuge => {
            proof {
                assert(buf@.len() <= u64::MAX);
                let sc = scan_headers(buf@, 0, None);
                assert(buf@.len() < sc->body_start + sc->len);
                assert(frame_scan(buf@) is NeedMore);
            }
            FrameStep::NeedMore
        },
        HdrOut::Done { len, body_start } => {
            let remaining = (buf.len() - body_start) as u64;
            if remaining < len {
                proof {
                    assert(buf@.len() < body_start + len);
                }
                FrameStep::NeedMore
            } else {
                let n = len as usize;
                proof {
                    assert(n as int == len as int);
                    assert(body_start + n <= buf@.len());
                }
                let mut body: Vec<u8> = Vec::new();
                let mut t: usize = body_start;
                proof {
                    assert(buf@.subrange(body_start as int, body_start as int) =~= Seq::<
                        u8,
                    >::empty());
                }
                while t < body_start + n
                    invariant
                        body_start <= t <= body_start + n <= buf@.len(),
                        body@ == buf@.subrange(body_start as int, t as int),
                    decreases body_start + n - t,
                {
                    proof {
                        assert(buf@.subrange(body_start as int, t + 1) =~= buf@.subrange(
                            body_start as int,
                            t as int,
                        ).push(buf@[t as int]));
                    }
                    body.push(buf[t]);
                    t = t + 1;
                }
                proof {
                    assert forall|j: JsonSpec|
                        wf(j) && body@ == ser(j) implies value_encoded_at(body@, 0, j) by {
                        assert(body@.subrange(0, ser(j).len() as int) =~= body@);
                    }
                }
                match parse_value(&body, 0) {
                    Some(p) => {
                        if p.1 == n {
                            FrameStep::Frame(p.0, body_start + n)
                        } else {
                            proof {
                                assert forall|j: JsonSpec|
                                    wf(j) && body@ == ser(j) implies false by {
                                    assert(value_encoded_at(body@, 0, j));
                                }
                            }
                            FrameStep::Bad(FrameError::BadBody)
                        }
                    },
                    None => {
                        proof {
                            assert forall|j: JsonSpec|
                                wf(j) && body@ == ser(j) implies false by {
                                assert(value_encoded_at(body@, 0, j));
                            }
                        }
                        FrameStep::Bad(FrameError::BadBody)
                    },
                }
            }
        },
    }
}

/// Decodes one frame from a stream that has ended: what `decode_step`
/// would still wait for is truncation here. Decoding the encoding of any
/// well-formed value yields exactly that value, consuming the whole buffer.
pub fn decode_frame(buf: &Vec<u8>) -> (r: Result<(JsonValue, usize), FrameError>)
    ensures
        frame_scan(buf@) is NeedMore ==> r == Result::<(JsonValue, usize), FrameError>::Err(
            FrameError::Truncated,
        ),
        forall|e: FrameError|
            frame_scan(buf@) == FrameSpec::Bad(e) ==> r == Result::<
                (JsonValue, usize),
                FrameError,
            >::Err(e),
        frame_scan(buf@) is Body ==> ({
            let bs = frame_scan(buf@)->body_start;
            let n = frame_scan(buf@)->len;
            &&& (r is Ok || r == Result::<(JsonValue, usize), FrameError>::Err(
                FrameError::BadBody,
            ))
            &&& (r is Ok ==> r->Ok_0.1 == bs + n)
            &&& (forall|j: JsonSpec|
                wf(j) && buf@.subrange(bs, bs + n as int) == ser(j) ==> r is Ok
                    && #[trigger] r->Ok_0.0.spec_val() == j)
        }),
        forall|j: JsonSpec|
            wf(j) && buf@ == frame_bytes(ser(j)) ==> r is Ok && #[trigger] r->Ok_0.0.spec_val()
                == j && r->Ok_0.1 == buf@.len(),
{
    proof {
        assert forall|j: JsonSpec|
            wf(j) && buf@ == frame_bytes(ser(j)) implies frame_scan(buf@) == (FrameSpec::Body {
            body_start: header_bytes(ser(j).len()).len() as int,
            len: ser(j).len(),
        }) && buf@.subrange(
            header_bytes(ser(j).len()).len() as int,
            header_bytes(ser(j).len()).len() + ser(j).len() as int,
        ) == ser(j) by {
            lemma_frame_canonical(ser(j), Seq::<u8>::empty());
            assert(frame_bytes(ser(j)) + Seq::<u8>::empty() =~= buf@);
        }
    }
    match decode_step(buf) {
        FrameStep::NeedMore => Err(FrameError::Truncated),
        FrameStep::Bad(e) => Err(e),
        FrameStep::Frame(v, consumed) => Ok((v, consumed)),
    }
}

// ---------------------------------------------------------------------------
// Encoding.
// ---------------------------------------------------------------------------

/// Encodes a payload as a frame: the canonical header declaring the exact
/// byte length of the serialized body, then the body bytes.
pub fn encode_frame(v: &JsonValue) -> (r: Vec<u8>)
    ensures
        r@ == frame_bytes(ser(v.spec_val())),
{
    let body = to_bytes(v);
    let mut out: Vec<u8> = Vec::new();
    out.push(67);
    out.push(111);
    out.push(110);
    out.push(116);
    out.push(101);
    out.push(110);
    out.push(116);
    out.push(45);
    out.push(76);
    out.push(101);
    out.push(110);
    out.push(103);
    out.push(116);
    out.push(104);
    out.push(58);
    out.push(32);
    proof {
        assert(out@ =~= cl_name() + seq![32u8]);
    }
    crate::json::write_u64_digits(body.len() as u64, &mut out);
    out.push(13);
    out.push(10);
    out.push(13);
    out.push(10);
    proof {
        assert(out@ =~= header_bytes(body@.len()));
    }
    let ghost hdr = out@;
    let mut t: usize = 0;
    proof {
        assert(body@.take(0) =~= Seq::<u8>::empty());
    }
    while t < body.len()
        invariant
            t <= body@.len(),
            out@ == hdr + body@.take(t as int),
        decreases body@.len() - t,
    {
        proof {
            assert(body@.take(t + 1) =~= body@.take(t as int).push(body@[t as int]));
        }
        out.push(body[t]);
        t = t + 1;
    }
    proof {
        assert(body@.take(body@.len() as int) =~= body@);
        assert(out@ =~= frame_bytes(ser(v.spec_val())));
    }
    out
}

// ---------------------------------------------------------------------------
// The framing round trip, as a law about the byte-level functions.
// ---------------------------------------------------------------------------

/// A canonically framed body, whatever follows it, scans to a complete
/// frame whose declared length is exactly the body's byte length, and the
/// body bytes stand right after the header. With the parser's completeness
/// this gives the round trip: decoding an encoded well-formed value yields
/// the value back.
/// The bytes of the canonical header, index by index.
proof fn lemma_header_shape(n: nat)
    ensures
        header_bytes(n).len() == 20 + dec_digits(n).len(),
        header_bytes(n)[0] == 67,
        header_bytes(n)[1] == 111,
        header_bytes(n)[2] == 110,
        header_bytes(n)[3] == 116,
        header_bytes(n)[4] == 101,
        header_bytes(n)[5] == 110,
        header_bytes(n)[6] == 116,
        header_bytes(n)[7] == 45,
        header_bytes(n)[8] == 76,
        header_bytes(n)[9] == 101,
        header_bytes(n)[10] == 110,
        header_bytes(n)[11] == 103,
        header_bytes(n)[12] == 116,
        header_bytes(n)[13] == 104,
        header_bytes(n)[14] == 58,
        header_bytes(n)[15] == 32,
        forall|t: int|
            16 <= t < 16 + dec_digits(n).len() ==> #[trigger] header_bytes(n)[t] == dec_digits(
                n,
            )[t - 16] && is_digit(header_bytes(n)[t]),
        header_bytes(n)[16 + dec_digits(n).len() as int] == 13,
        header_bytes(n)[17 + dec_digits(n).len() as int] == 10,
        header_bytes(n)[18 + dec_digits(n).len() as int] == 13,
        header_bytes(n)[19 + dec_digits(n).len() as int] == 10,
        forall|t: int| 0 <= t < 16 + dec_digits(n).len() ==> #[trigger] header_bytes(n)[t] != 13,
{
    lemma_dec_digits_shape(n);
    let hdr = header_bytes(n);
    let dd = dec_digits(n);
    assert forall|t: int| 16 <= t < 16 + dd.len() implies #[trigger] hdr[t] == dd[t - 16]
        && is_digit(hdr[t]) by {
        assert((cl_name() + seq![32u8] + dd)[t] == dd[t - 16]);
    }
    assert forall|t: int| 0 <= t < 16 + dd.len() implies #[trigger] hdr[t] != 13 by {
        if 16 <= t {
            assert(hdr[t] == dd[t - 16]);
            assert(is_digit(dd[t - 16]));
        }
    }
}

/// A canonically framed body, whatever follows it, scans to a complete
/// frame whose declared length is exactly the body's byte length, and the
/// body bytes stand right after the header. With the parser's completeness
/// this gives the round trip: decoding an encoded well-formed value yields
/// the value back.
#[verifier::rlimit(100)]
pub proof fn lemma_frame_canonical(body: Seq<u8>, rest: Seq<u8>)
    ensures
        scan_headers(frame_bytes(body) + rest, 0, None) == (HdrScan::Done {
            len: body.len(),
            body_start: header_bytes(body.len()).len() as int,
        }),
        frame_scan(frame_bytes(body) + rest) == (FrameSpec::Body {
            body_start: header_bytes(body.len()).len() as int,
            len: body.len(),
        }),
        (frame_bytes(body) + rest).subrange(
            header_bytes(body.len()).len() as int,
            header_bytes(body.len()).len() + body.len() as int,
        ) == body,
{
    let s = frame_bytes(body) + rest;
    let dd = dec_digits(body.len());
    let hdr = header_bytes(body.len());
    let hd = 16 + dd.len() as int;
    lemma_dec_digits_shape(body.len());
    lemma_dec_digits_val(body.len());
    lemma_header_shape(body.len());
    assert forall|t: int| 0 <= t < hdr.len() implies s[t] == #[trigger] hdr[t] by {
        assert((hdr + body)[t] == hdr[t]);
        assert(((hdr + body) + rest)[t] == (hdr + body)[t]);
    }
    // the first CR LF ends the Content-Length line
    assert(s[hd] == 13 && s[hd + 1] == 10 && s[hd + 2] == 13 && s[hd + 3] == 10);
    assert forall|t: int| 0 <= t < hd implies #[trigger] s[t] != 13 by {
        assert(s[t] == hdr[t]);
    }
    lemma_find_crlf_pins(s, 0, hd);
    // the Content-Length line carries exactly the body length
    assert(cl_prefixed(s, 0, hd));
    assert(s[15] == 32);
    assert(is_digit(s[16]));
    lemma_ws_end_pins(s, 15, 16);
    assert forall|t: int| 16 <= t < 16 + dd.len() implies is_digit(#[trigger] s[t]) by {
        assert(s[t] == hdr[t]);
    }
    lemma_digits_end_pins(s, 16, hd);
    lemma_ws_end_pins(s, hd, hd);
    assert(cl_valid(s, 0, hd));
    assert forall|t: int| 0 <= t < dd.len() implies s.subrange(16, hd)[t] == dd[t] by {
        assert(s[16 + t] == hdr[16 + t]);
    }
    assert(s.subrange(16, hd) =~= dd);
    assert(cl_value(s, 0, hd) == body.len());
    // the blank line right after
    lemma_find_crlf_pins(s, hd + 2, hd + 2);
    assert(scan_headers(s, hd + 2, Some(body.len())) == (HdrScan::Done {
        len: body.len(),
        body_start: hd + 4,
    }));
    assert(scan_headers(s, 0, None) == scan_headers(s, hd + 2, Some(body.len())));
    // the body bytes
    assert forall|t: int| 0 <= t < body.len() implies s[hdr.len() + t] == #[trigger] body[t] by {
        assert((hdr + body)[hdr.len() + t] == body[t]);
        assert(((hdr + body) + rest)[hdr.len() + t] == (hdr + body)[hdr.len() + t]);
    }
    assert(s.subrange(hdr.len() as int, hdr.len() + body.len() as int) =~= body);
    assert(s.len() >= hd + 4 + body.len());
}

} // verus!
