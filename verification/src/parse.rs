//! The parser for the structured-data grammar, verified complete against
//! the serializer: wherever the input holds the serialization of a
//! well-formed value (followed by nothing that could extend it), the parser
//! returns exactly that value. On other inputs it may accept a more liberal
//! spelling of the same grammar or fail; it never panics.

use crate::json::JsonSpec;
use crate::json::JsonValue;
use crate::json::dec_digits;
use crate::json::digits_end;
use crate::json::digits_val;
use crate::json::esc_byte;
use crate::json::esc_bytes;
use crate::json::hex_digit;
use crate::json::is_digit;
use crate::json::joined;
use crate::json::lemma_dec_digits_shape;
use crate::json::lemma_dec_digits_val;
use crate::json::lemma_esc_byte_shape;
use crate::json::lemma_esc_bytes_push;
use crate::json::lemma_esc_bytes_split;
use crate::json::lemma_joined_decompose;
use crate::json::lemma_joined_push;
use crate::json::lemma_members_of_push;
use crate::json::lemma_ser_shape;
use crate::json::lemma_wf_arr;
use crate::json::lemma_wf_arr_all;
use crate::json::lemma_wf_obj;
use crate::json::lemma_wf_obj_all;
use crate::json::lemma_vals_of_push;
use crate::json::members_of;
use crate::json::num_cont_byte;
use crate::json::nr_d1;
use crate::json::nr_i0;
use crate::json::nr_p;
use crate::json::nr_qs;
use crate::json::numraw_ok;
use crate::json::ser;
use crate::json::ser_int;
use crate::json::ser_list;
use crate::json::ser_member;
use crate::json::ser_obj_list;
use crate::json::vals_of;
use crate::json::wf;
use vstd::prelude::*;

verus! {

broadcast use vstd::seq::group_seq_axioms, vstd::std_specs::vec::group_vec_axioms;

// ---------------------------------------------------------------------------
// What it means for serialized bytes to sit at a position of the input.
// ---------------------------------------------------------------------------

/// The bytes `w` stand at position `pos` of `s`.
pub open spec fn bytes_at(s: Seq<u8>, pos: int, w: Seq<u8>) -> bool {
    &&& 0 <= pos
    &&& pos + w.len() <= s.len()
    &&& s.subrange(pos, pos + w.len()) == w
}

/// Nothing at `pos` could extend a number literal ending just before it.
pub open spec fn follow_ok(s: Seq<u8>, pos: int) -> bool {
    pos >= s.len() || !num_cont_byte(s[pos])
}

/// The serialization of the well-formed value `j` stands at `pos`, followed
/// by end of input or by a byte that cannot extend it.
pub open spec fn value_encoded_at(s: Seq<u8>, pos: int, j: JsonSpec) -> bool {
    &&& wf(j)
    &&& bytes_at(s, pos, ser(j))
    &&& follow_ok(s, pos + ser(j).len())
}

/// The canonical escaping of the string body `sb` stands at `pos`, with the
/// closing quote right after it.
pub open spec fn str_encoded_at(s: Seq<u8>, pos: int, sb: Seq<u8>) -> bool {
    &&& 0 <= pos
    &&& pos + esc_bytes(sb).len() + 1 <= s.len()
    &&& s.subrange(pos, pos + esc_bytes(sb).len()) == esc_bytes(sb)
    &&& s[pos + esc_bytes(sb).len()] == 34
}

// ---------------------------------------------------------------------------
// String bodies.
// ---------------------------------------------------------------------------

/// Where the canonical escaping of `sb` stands at `pos` and `k` bytes of
/// `sb` are already decoded, the input continues with the escape of
/// `sb[k]` (or the closing quote when `k` is the whole body).
proof fn lemma_str_step(s: Seq<u8>, pos: int, sb: Seq<u8>, k: int)
    requires
        str_encoded_at(s, pos, sb),
        0 <= k <= sb.len(),
    ensures
        esc_bytes(sb.take(k)).len() <= esc_bytes(sb).len(),
        k < sb.len() ==> {
            let cur = pos + esc_bytes(sb.take(k)).len();
            &&& cur + esc_byte(sb[k]).len() <= pos + esc_bytes(sb).len()
            &&& bytes_at(s, cur, esc_byte(sb[k]))
            &&& esc_bytes(sb.take(k + 1)).len() == esc_bytes(sb.take(k)).len() + esc_byte(
                sb[k],
            ).len()
        },
        k == sb.len() ==> s[pos + esc_bytes(sb.take(k)).len()] == 34,
{
    if k == sb.len() {
        assert(sb.take(k) =~= sb);
    } else {
        lemma_esc_bytes_split(sb, k);
        let a = esc_bytes(sb.take(k));
        let b = esc_byte(sb[k]);
        let c = esc_bytes(sb.skip(k + 1));
        assert(esc_bytes(sb) == a + b + c);
        assert(esc_bytes(sb).len() == a.len() + b.len() + c.len());
        let cur = pos + a.len();
        assert forall|t: int| 0 <= t < b.len() implies s[cur + t] == b[t] by {
            assert((a + b + c)[a.len() + t] == b[t]);
            assert(s.subrange(pos, pos + esc_bytes(sb).len())[a.len() + t] == b[t]);
        }
        assert(s.subrange(cur, cur + b.len()) =~= b);
        assert(sb.take(k + 1) =~= sb.take(k).push(sb[k]));
        lemma_esc_bytes_push(sb.take(k), sb[k]);
    }
}

/// Hexadecimal digit value: exact on the lowercase digits the serializer
/// writes, liberal about uppercase, 255 on anything else.
fn hex_val(b: u8) -> (r: u8)
    ensures
        forall|n: u8| n < 16 && b == hex_digit(n) ==> r == n,
        r < 16 || r == 255,
{
    if 48 <= b && b <= 57 {
        b - 48
    } else if 97 <= b && b <= 102 {
        b - 87
    } else if 65 <= b && b <= 70 {
        b - 55
    } else {
        255
    }
}

/// Parses a string body starting right after the opening quote, up to and
/// including the closing quote. Returns the decoded bytes and the position
/// after the closing quote.
#[verifier::loop_isolation(false)]
#[verifier::rlimit(80)]
fn parse_string(s: &Vec<u8>, pos: usize) -> (r: Option<(Vec<u8>, usize)>)
    requires
        pos <= s@.len(),
    ensures
        r is Some ==> pos < r->Some_0.1 <= s@.len(),
        forall|sb: Seq<u8>|
            #[trigger] str_encoded_at(s@, pos as int, sb) ==> {
                &&& r is Some
                &&& r->Some_0.0@ == sb
                &&& r->Some_0.1 == pos + esc_bytes(sb).len() + 1
            },
{
    let mut acc: Vec<u8> = Vec::new();
    let mut cur: usize = pos;
    proof {
        assert forall|sb: Seq<u8>| #[trigger] str_encoded_at(s@, pos as int, sb) implies acc@ =~= sb.take(
            acc@.len() as int,
        ) && esc_bytes(sb.take(acc@.len() as int)).len() == 0 by {
            assert(sb.take(0) =~= Seq::<u8>::empty());
        }
    }
    loop
        invariant
            pos <= cur <= s@.len(),
            forall|sb: Seq<u8>|
                #[trigger] str_encoded_at(s@, pos as int, sb) ==> {
                    &&& acc@.len() <= sb.len()
                    &&& acc@ == sb.take(acc@.len() as int)
                    &&& cur == pos + esc_bytes(sb.take(acc@.len() as int)).len()
                },
        decreases s@.len() - cur,
    {
        if cur >= s.len() {
            proof {
                assert forall|sb: Seq<u8>| !(#[trigger] str_encoded_at(s@, pos as int, sb)) by {
                    if str_encoded_at(s@, pos as int, sb) {
                        lemma_str_step(s@, pos as int, sb, acc@.len() as int);
                    }
                }
            }
            return None;
        }
        let b = s[cur];
        if b == 34 {
            proof {
                assert forall|sb: Seq<u8>|
                    #[trigger] str_encoded_at(s@, pos as int, sb) implies acc@ == sb && cur + 1 == pos
                    + esc_bytes(sb).len() + 1 by {
                    let k = acc@.len() as int;
                    lemma_str_step(s@, pos as int, sb, k);
                    if k < sb.len() {
                        lemma_esc_byte_shape(sb[k]);
                        assert(s@[cur as int] == esc_byte(sb[k])[0]);
                        assert(false);
                    }
                    assert(sb.take(k) =~= sb);
                }
            }
            return Some((acc, cur + 1));
        } else if b == 92 {
            proof {
                assert forall|sb: Seq<u8>|
                    #[trigger] str_encoded_at(s@, pos as int, sb) implies acc@.len() < sb.len() && (sb[acc@.len() as int]
                    == 34 || sb[acc@.len() as int] == 92 || sb[acc@.len() as int] < 32) by {
                    let k = acc@.len() as int;
                    lemma_str_step(s@, pos as int, sb, k);
                    if k == sb.len() {
                        assert(s@[cur as int] == 34);
                        assert(false);
                    }
                    lemma_esc_byte_shape(sb[k]);
                    assert(s@[cur as int] == esc_byte(sb[k])[0]);
                }
            }
            if cur + 1 >= s.len() {
                proof {
                    assert forall|sb: Seq<u8>| !(#[trigger] str_encoded_at(s@, pos as int, sb)) by {
                        if str_encoded_at(s@, pos as int, sb) {
                            let k = acc@.len() as int;
                            lemma_str_step(s@, pos as int, sb, k);
                            lemma_esc_byte_shape(sb[k]);
                        }
                    }
                }
                return None;
            }
            let e = s[cur + 1];
            let ghost k = acc@.len() as int;
            if e == 34 || e == 92 {
                proof {
                    assert forall|sb: Seq<u8>|
                        #[trigger] str_encoded_at(s@, pos as int, sb) implies sb[k] == e && esc_byte(
                        sb[k],
                    ).len() == 2 by {
                        lemma_str_step(s@, pos as int, sb, k);
                        lemma_esc_byte_shape(sb[k]);
                        assert(s@[cur + 1] == esc_byte(sb[k])[1]);
                    }
                }
                acc.push(e);
                cur = cur + 2;
                proof {
                    assert forall|sb: Seq<u8>|
                        #[trigger] str_encoded_at(s@, pos as int, sb) implies acc@ == sb.take(k + 1) && cur
                        == pos + esc_bytes(sb.take(k + 1)).len() by {
                        lemma_str_step(s@, pos as int, sb, k);
                        assert(sb.take(k + 1) =~= sb.take(k).push(sb[k]));
                    }
                }

            } else if e == 117 {
                proof {
                    assert forall|sb: Seq<u8>|
                        #[trigger] str_encoded_at(s@, pos as int, sb) implies sb[k] < 32 && esc_byte(
                        sb[k],
                    ).len() == 6 by {
                        lemma_str_step(s@, pos as int, sb, k);
                        lemma_esc_byte_shape(sb[k]);
                        assert(s@[cur + 1] == esc_byte(sb[k])[1]);
                    }
                }
                if s.len() - cur < 6 {
                    proof {
                        assert forall|sb: Seq<u8>| !(#[trigger] str_encoded_at(s@, pos as int, sb)) by {
                            if str_encoded_at(s@, pos as int, sb) {
                                lemma_str_step(s@, pos as int, sb, k);
                            }
                        }
                    }
                    return None;
                }
                let h1 = s[cur + 2];
                let h2 = s[cur + 3];
                let v3 = hex_val(s[cur + 4]);
                let v4 = hex_val(s[cur + 5]);
                proof {
                    assert forall|sb: Seq<u8>|
                        #[trigger] str_encoded_at(s@, pos as int, sb) implies h1 == 48 && h2 == 48 && v3
                        == sb[k] / 16 && v4 == sb[k] % 16 && v3 < 16 && v4 < 16 by {
                        lemma_str_step(s@, pos as int, sb, k);
                        lemma_esc_byte_shape(sb[k]);
                        assert(s@[cur + 2] == esc_byte(sb[k])[2]);
                        assert(s@[cur + 3] == esc_byte(sb[k])[3]);
                        assert(s@[cur + 4] == esc_byte(sb[k])[4]);
                        assert(s@[cur + 5] == esc_byte(sb[k])[5]);
                        assert(s@[cur + 4] == hex_digit(sb[k] / 16));
                        assert(s@[cur + 5] == hex_digit(sb[k] % 16));
                    }
                }
                if h1 != 48 || h2 != 48 || v3 >= 16 || v4 >= 16 {
                    return None;
                }
                acc.push(v3 * 16 + v4);
                cur = cur + 6;
                proof {
                    assert forall|sb: Seq<u8>|
                        #[trigger] str_encoded_at(s@, pos as int, sb) implies acc@ == sb.take(k + 1) && cur
                        == pos + esc_bytes(sb.take(k + 1)).len() by {
                        lemma_str_step(s@, pos as int, sb, k);
                        assert(sb[k] / 16 * 16 + sb[k] % 16 == sb[k]);
                        assert(sb.take(k + 1) =~= sb.take(k).push(sb[k]));
                    }
                }

            } else if e == 47 || e == 98 || e == 102 || e == 110 || e == 114 || e == 116 {
                // A liberal spelling (\/ \b \f \n \r \t); the canonical
                // escaping never writes these, so no encoded body is here.
                proof {
                    assert forall|sb: Seq<u8>| !(#[trigger] str_encoded_at(s@, pos as int, sb)) by {
                        if str_encoded_at(s@, pos as int, sb) {
                            lemma_str_step(s@, pos as int, sb, k);
                            lemma_esc_byte_shape(sb[k]);
                            assert(s@[cur + 1] == esc_byte(sb[k])[1]);
                        }
                    }
                }
                let d: u8 = if e == 47 {
                    47
                } else if e == 98 {
                    8
                } else if e == 102 {
                    12
                } else if e == 110 {
                    10
                } else if e == 114 {
                    13
                } else {
                    9
                };
                acc.push(d);
                cur = cur + 2;
            } else {
                proof {
                    assert forall|sb: Seq<u8>| !(#[trigger] str_encoded_at(s@, pos as int, sb)) by {
                        if str_encoded_at(s@, pos as int, sb) {
                            lemma_str_step(s@, pos as int, sb, k);
                            lemma_esc_byte_shape(sb[k]);
                            assert(s@[cur + 1] == esc_byte(sb[k])[1]);
                        }
                    }
                }
                return None;
            }
        } else {
            let ghost k = acc@.len() as int;
            proof {
                assert forall|sb: Seq<u8>|
                    #[trigger] str_encoded_at(s@, pos as int, sb) implies k < sb.len() && sb[k] == b
                    && esc_byte(sb[k]).len() == 1 by {
                    lemma_str_step(s@, pos as int, sb, k);
                    if k == sb.len() {
                        assert(s@[cur as int] == 34);
                        assert(false);
                    }
                    lemma_esc_byte_shape(sb[k]);
                    assert(s@[cur as int] == esc_byte(sb[k])[0]);
                }
            }
            acc.push(b);
            cur = cur + 1;
            proof {
                assert forall|sb: Seq<u8>|
                    #[trigger] str_encoded_at(s@, pos as int, sb) implies acc@ == sb.take(k + 1) && cur == pos
                    + esc_bytes(sb.take(k + 1)).len() by {
                    lemma_str_step(s@, pos as int, sb, k);
                    assert(sb.take(k + 1) =~= sb.take(k).push(sb[k]));
                }
            }

        }
    }
}

// ---------------------------------------------------------------------------
// Numbers.
// ---------------------------------------------------------------------------

/// The serialization of the integer `i` stands at `pos`, with nothing after
/// it that could extend a number literal.
pub open spec fn int_encoded_at(s: Seq<u8>, pos: int, i: int) -> bool {
    &&& i64::MIN <= i <= i64::MAX
    &&& bytes_at(s, pos, ser_int(i))
    &&& follow_ok(s, pos + ser_int(i).len())
}

/// The raw number literal `n` stands at `pos`, with nothing after it that
/// could extend it.
pub open spec fn numraw_encoded_at(s: Seq<u8>, pos: int, n: Seq<u8>) -> bool {
    &&& numraw_ok(n)
    &&& bytes_at(s, pos, n)
    &&& follow_ok(s, pos + n.len())
}

/// Bytes standing at a position can be read off one by one.
proof fn lemma_bytes_at_index(s: Seq<u8>, pos: int, w: Seq<u8>)
    requires
        bytes_at(s, pos, w),
    ensures
        forall|t: int| 0 <= t < w.len() ==> s[pos + t] == #[trigger] w[t],
{
    assert forall|t: int| 0 <= t < w.len() implies s[pos + t] == #[trigger] w[t] by {
        assert(s.subrange(pos, pos + w.len())[t] == s[pos + t]);
    }
}

/// The characteristic properties of `digits_end`: it stops at the first
/// non-digit, and everything before it is a digit.
pub(crate) proof fn lemma_digits_end_char(s: Seq<u8>, i: int)
    requires
        0 <= i <= s.len(),
    ensures
        i <= digits_end(s, i) <= s.len(),
        forall|t: int| i <= t < digits_end(s, i) ==> is_digit(#[trigger] s[t]),
        digits_end(s, i) == s.len() || !is_digit(s[digits_end(s, i)]),
    decreases s.len() - i,
{
    if i < s.len() && is_digit(s[i]) {
        lemma_digits_end_char(s, i + 1);
    }
}

/// `digits_end` is pinned by a digit run and its non-digit boundary.
pub(crate) proof fn lemma_digits_end_pins(s: Seq<u8>, i: int, x: int)
    requires
        0 <= i <= x <= s.len(),
        forall|t: int| i <= t < x ==> is_digit(#[trigger] s[t]),
        x == s.len() || !is_digit(s[x]),
    ensures
        digits_end(s, i) == x,
    decreases x - i,
{
    if i < x {
        assert(is_digit(s[i]));
        lemma_digits_end_pins(s, i + 1, x);
    }
}

/// The value of a digit-string prefix never exceeds the whole.
proof fn lemma_digits_val_take_le(ds: Seq<u8>, k: int)
    requires
        0 <= k <= ds.len(),
    ensures
        digits_val(ds.take(k)) <= digits_val(ds),
    decreases ds.len(),
{
    if k < ds.len() {
        lemma_digits_val_take_le(ds.drop_last(), k);
        assert(ds.drop_last().take(k) =~= ds.take(k));
        assert(digits_val(ds) == digits_val(ds.drop_last()) * 10 + (if ds.last() >= 48 {
            (ds.last() - 48) as nat
        } else {
            0
        }));
    } else {
        assert(ds.take(k) =~= ds);
    }
}

/// First position at or after `from` without a decimal digit.
pub(crate) fn scan_digits(s: &Vec<u8>, from: usize) -> (r: usize)
    requires
        from <= s@.len(),
    ensures
        from <= r <= s@.len(),
        r == digits_end(s@, from as int),
{
    let mut cur: usize = from;
    while cur < s.len() && s[cur] >= 48 && s[cur] <= 57
        invariant
            from <= cur <= s@.len(),
            digits_end(s@, from as int) == digits_end(s@, cur as int),
        decreases s@.len() - cur,
    {
        proof {
            assert(digits_end(s@, cur as int) == digits_end(s@, cur + 1));
        }
        cur = cur + 1;
    }
    proof {
        assert(digits_end(s@, cur as int) == cur as int);
    }
    cur
}

/// Reads the value of the digit run `s[from..to]`, or reports that it does
/// not fit the accumulator.
#[verifier::loop_isolation(false)]
pub(crate) fn read_digits_val(s: &Vec<u8>, from: usize, to: usize) -> (r: Option<u64>)
    requires
        from <= to <= s@.len(),
        forall|t: int| from <= t < to ==> is_digit(#[trigger] s@[t]),
    ensures
        r is Some ==> r->Some_0 == digits_val(s@.subrange(from as int, to as int)),
        r is None ==> digits_val(s@.subrange(from as int, to as int)) > u64::MAX,
{
    let mut acc: u64 = 0;
    let mut cur: usize = from;
    proof {
        assert(s@.subrange(from as int, from as int) =~= Seq::<u8>::empty());
    }
    while cur < to
        invariant
            from <= cur <= to,
            acc == digits_val(s@.subrange(from as int, cur as int)),
        decreases to - cur,
    {
        let d = s[cur] - 48;
        let ghost pre = s@.subrange(from as int, cur as int);
        proof {
            assert(s@.subrange(from as int, cur + 1) =~= pre.push(s@[cur as int]));
            assert(pre.push(s@[cur as int]).drop_last() =~= pre);
            assert(digits_val(pre.push(s@[cur as int])) == digits_val(pre) * 10 + (d as nat));
        }
        let m = match acc.checked_mul(10) {
            Some(m) => m,
            None => {
                proof {
                    assert(digits_val(s@.subrange(from as int, cur + 1)) > u64::MAX);
                    assert(s@.subrange(from as int, to as int).take(cur + 1 - from)
                        =~= s@.subrange(from as int, cur + 1));
                    lemma_digits_val_take_le(
                        s@.subrange(from as int, to as int),
                        cur + 1 - from,
                    );
                }
                return None;
            },
        };
        let v = match m.checked_add(d as u64) {
            Some(v) => v,
            None => {
                proof {
                    assert(digits_val(s@.subrange(from as int, cur + 1)) > u64::MAX);
                    assert(s@.subrange(from as int, to as int).take(cur + 1 - from)
                        =~= s@.subrange(from as int, cur + 1));
                    lemma_digits_val_take_le(
                        s@.subrange(from as int, to as int),
                        cur + 1 - from,
                    );
                }
                return None;
            },
        };
        acc = v;
        cur = cur + 1;
    }
    Some(acc)
}

/// The shape of an encoded integer: sign byte, digit run, boundaries.
proof fn lemma_int_structure(s: Seq<u8>, pos: int, i: int)
    requires
        int_encoded_at(s, pos, i),
    ensures
        (i < 0 <==> s[pos] == 45),
        ({
            let st: int = if i < 0 {
                pos + 1
            } else {
                pos
            };
            let mag: nat = if i < 0 {
                (-i) as nat
            } else {
                i as nat
            };
            &&& st + dec_digits(mag).len() == pos + ser_int(i).len()
            &&& digits_end(s, st) == pos + ser_int(i).len()
            &&& s.subrange(st, st + dec_digits(mag).len() as int) == dec_digits(mag)
            &&& pos + ser_int(i).len() >= s.len() || !num_cont_byte(s[pos + ser_int(i).len()])
        }),
{
    let st: int = if i < 0 {
        pos + 1
    } else {
        pos
    };
    let mag: nat = if i < 0 {
        (-i) as nat
    } else {
        i as nat
    };
    lemma_dec_digits_shape(mag);
    lemma_bytes_at_index(s, pos, ser_int(i));
    if i < 0 {
        assert(s[pos] == ser_int(i)[0]);
        assert forall|t: int| 0 <= t < dec_digits(mag).len() implies s[st + t] == #[trigger] dec_digits(
            mag,
        )[t] by {
            assert(ser_int(i)[1 + t] == dec_digits(mag)[t]);
        }
    } else {
        assert(ser_int(i) == dec_digits(mag));
        assert(s[pos + 0] == ser_int(i)[0]);
        assert(is_digit(s[pos]));
        assert(s[pos] != 45);
    }
    assert(s.subrange(st, st + dec_digits(mag).len() as int) =~= dec_digits(mag));
    assert forall|t: int| st <= t < pos + ser_int(i).len() implies is_digit(#[trigger] s[t]) by {
        assert(s[st + (t - st)] == dec_digits(mag)[t - st]);
    }
    lemma_digits_end_pins(s, st, pos + ser_int(i).len());
}

/// The shape of an encoded raw number literal: where each digit run of the
/// literal ends within the surrounding input.
proof fn lemma_numraw_structure(s: Seq<u8>, pos: int, n: Seq<u8>)
    requires
        numraw_encoded_at(s, pos, n),
    ensures
        nr_i0(n) < nr_d1(n) < n.len(),
        (n[0] == 45 <==> s[pos] == 45),
        digits_end(s, pos + nr_i0(n)) == pos + nr_d1(n),
        s[pos + nr_d1(n)] == n[nr_d1(n)],
        n[nr_d1(n)] == 46 || n[nr_d1(n)] == 101 || n[nr_d1(n)] == 69,
        n[nr_d1(n)] == 46 ==> nr_p(n) > nr_d1(n) + 1 && digits_end(s, pos + nr_d1(n) + 1) == pos
            + nr_p(n),
        nr_p(n) <= n.len(),
        nr_p(n) < n.len() ==> (n[nr_p(n)] == 101 || n[nr_p(n)] == 69) && nr_p(n) + 1 < n.len()
            && s[pos + nr_p(n)] == n[nr_p(n)] && s[pos + nr_p(n) + 1] == n[nr_p(n) + 1] && nr_qs(n)
            < n.len() && digits_end(s, pos + nr_qs(n)) == pos + n.len(),
        nr_p(n) == n.len() ==> pos + nr_p(n) >= s.len() || !num_cont_byte(s[pos + nr_p(n)]),
        pos + n.len() >= s.len() || !num_cont_byte(s[pos + n.len()]),
{
    let i0 = nr_i0(n);
    let d1 = nr_d1(n);
    let p = nr_p(n);
    let qs = nr_qs(n);
    lemma_bytes_at_index(s, pos, n);
    lemma_digits_end_char(n, i0);
    // integer digit run
    assert forall|t: int| pos + i0 <= t < pos + d1 implies is_digit(#[trigger] s[t]) by {
        assert(s[pos + (t - pos)] == n[t - pos]);
    }
    assert(s[pos + d1] == n[d1]);
    lemma_digits_end_pins(s, pos + i0, pos + d1);
    if n[d1] == 46 {
        lemma_digits_end_char(n, d1 + 1);
        assert(p == digits_end(n, d1 + 1));
        assert forall|t: int| pos + d1 + 1 <= t < pos + p implies is_digit(#[trigger] s[t]) by {
            assert(s[pos + (t - pos)] == n[t - pos]);
        }
        if p < n.len() {
            assert(s[pos + p] == n[p]);
            assert(!is_digit(n[p]));
        }
        lemma_digits_end_pins(s, pos + d1 + 1, pos + p);
    }
    if p < n.len() {
        assert(s[pos + p] == n[p]);
        assert(s[pos + p + 1] == n[p + 1]);
        lemma_digits_end_char(n, qs);
        assert(digits_end(n, qs) == n.len());
        assert forall|t: int| pos + qs <= t < pos + n.len() implies is_digit(#[trigger] s[t]) by {
            assert(s[pos + (t - pos)] == n[t - pos]);
        }
        lemma_digits_end_pins(s, pos + qs, pos + n.len());
    }
}

/// Parses a number starting at `pos`: a plain integer becomes `Int`, a
/// literal with a fraction or exponent is carried verbatim as `NumRaw`.
#[verifier::loop_isolation(false)]
#[verifier::rlimit(100)]
fn parse_number(s: &Vec<u8>, pos: usize) -> (r: Option<(JsonValue, usize)>)
    requires
        pos < s@.len(),
    ensures
        r is Some ==> pos < r->Some_0.1 <= s@.len(),
        forall|i: int|
            #[trigger] int_encoded_at(s@, pos as int, i) ==> {
                &&& r is Some
                &&& r->Some_0.0.spec_val() == JsonSpec::Int(i)
                &&& r->Some_0.1 == pos + ser_int(i).len()
            },
        forall|n: Seq<u8>|
            #[trigger] numraw_encoded_at(s@, pos as int, n) ==> {
                &&& r is Some
                &&& r->Some_0.0.spec_val() == JsonSpec::NumRaw(n)
                &&& r->Some_0.1 == pos + n.len()
            },
{
    let slen = s.len();
    let neg = s[pos] == 45;
    let dstart: usize = if neg {
        pos + 1
    } else {
        pos
    };
    proof {
        assert(slen == s@.len());
        assert forall|i: int|
            #[trigger] int_encoded_at(s@, pos as int, i) implies dstart == (if i < 0 {
            pos + 1int
        } else {
            pos as int
        }) by {
            lemma_int_structure(s@, pos as int, i);
        }
        assert forall|n: Seq<u8>|
            #[trigger] numraw_encoded_at(s@, pos as int, n) implies dstart == pos + nr_i0(n) by {
            lemma_numraw_structure(s@, pos as int, n);
        }
    }
    if dstart >= s.len() {
        proof {
            assert forall|i: int| !(#[trigger] int_encoded_at(s@, pos as int, i)) by {
                if int_encoded_at(s@, pos as int, i) {
                    lemma_int_structure(s@, pos as int, i);
                    lemma_dec_digits_shape(
                        if i < 0 {
                            (-i) as nat
                        } else {
                            i as nat
                        },
                    );
                }
            }
            assert forall|n: Seq<u8>| !(#[trigger] numraw_encoded_at(s@, pos as int, n)) by {
                if numraw_encoded_at(s@, pos as int, n) {
                    lemma_numraw_structure(s@, pos as int, n);
                }
            }
        }
        return None;
    }
    let dend = scan_digits(s, dstart);
    proof {
        lemma_digits_end_char(s@, dstart as int);
        assert forall|i: int|
            #[trigger] int_encoded_at(s@, pos as int, i) implies dend == pos + ser_int(i).len()
            && dend > dstart by {
            lemma_int_structure(s@, pos as int, i);
            lemma_dec_digits_shape(
                if i < 0 {
                    (-i) as nat
                } else {
                    i as nat
                },
            );
        }
        assert forall|n: Seq<u8>|
            #[trigger] numraw_encoded_at(s@, pos as int, n) implies dend == pos + nr_d1(n) && dend
            > dstart && dend < s@.len() && s@[dend as int] == n[nr_d1(n)] && (n[nr_d1(n)] == 46
            || n[nr_d1(n)] == 101 || n[nr_d1(n)] == 69) by {
            lemma_numraw_structure(s@, pos as int, n);
        }
    }
    if dend == dstart {
        return None;
    }
    let is_raw = dend < s.len() && (s[dend] == 46 || s[dend] == 101 || s[dend] == 69);
    if is_raw {
        proof {
            assert forall|i: int| !(#[trigger] int_encoded_at(s@, pos as int, i)) by {
                if int_encoded_at(s@, pos as int, i) {
                    assert(!num_cont_byte(s@[pos + ser_int(i).len()]));
                }
            }
        }
        let mut p: usize = dend;
        if s[dend] == 46 {
            let d2 = scan_digits(s, dend + 1);
            proof {
                assert forall|n: Seq<u8>|
                    #[trigger] numraw_encoded_at(s@, pos as int, n) implies d2 == pos + nr_p(n)
                    && d2 > dend + 1 by {
                    lemma_numraw_structure(s@, pos as int, n);
                }
            }
            if d2 == dend + 1 {
                return None;
            }
            p = d2;
        }
        proof {
            assert forall|n: Seq<u8>|
                #[trigger] numraw_encoded_at(s@, pos as int, n) implies p == pos + nr_p(n) by {
                lemma_numraw_structure(s@, pos as int, n);
            }
        }
        let mut q: usize = p;
        if p < s.len() && (s[p] == 101 || s[p] == 69) {
            proof {
                assert forall|n: Seq<u8>|
                    #[trigger] numraw_encoded_at(s@, pos as int, n) implies nr_p(n) < n.len()
                    && p + 1 < s@.len() by {
                    lemma_numraw_structure(s@, pos as int, n);
                    if nr_p(n) == n.len() {
                        assert(num_cont_byte(s@[p as int]));
                        assert(false);
                    }
                }
            }
            let qs: usize = if p + 1 < s.len() && (s[p + 1] == 43 || s[p + 1] == 45) {
                p + 2
            } else {
                p + 1
            };
            proof {
                assert forall|n: Seq<u8>|
                    #[trigger] numraw_encoded_at(s@, pos as int, n) implies qs == pos + nr_qs(n)
                    && qs < s@.len() by {
                    lemma_numraw_structure(s@, pos as int, n);
                }
            }
            if qs >= s.len() {
                return None;
            }
            let d3 = scan_digits(s, qs);
            proof {
                assert forall|n: Seq<u8>|
                    #[trigger] numraw_encoded_at(s@, pos as int, n) implies d3 == pos + n.len()
                    && d3 > qs by {
                    lemma_numraw_structure(s@, pos as int, n);
                }
            }
            if d3 == qs {
                return None;
            }
            q = d3;
        } else {
            proof {
                assert forall|n: Seq<u8>|
                    #[trigger] numraw_encoded_at(s@, pos as int, n) implies q == pos + n.len() by {
                    lemma_numraw_structure(s@, pos as int, n);
                    if nr_p(n) < n.len() {
                        assert(s@[p as int] == n[nr_p(n)]);
                        assert(p < s@.len());
                        assert(false);
                    }
                }
            }
        }
        let mut raw: Vec<u8> = Vec::new();
        let mut t: usize = pos;
        proof {
            assert(s@.subrange(pos as int, pos as int) =~= Seq::<u8>::empty());
        }
        while t < q
            invariant
                pos <= t <= q <= s@.len(),
                raw@ == s@.subrange(pos as int, t as int),
            decreases q - t,
        {
            proof {
                assert(s@.subrange(pos as int, t + 1) =~= s@.subrange(pos as int, t as int).push(
                    s@[t as int],
                ));
            }
            raw.push(s[t]);
            t = t + 1;
        }
        proof {
            assert forall|n: Seq<u8>|
                #[trigger] numraw_encoded_at(s@, pos as int, n) implies raw@ == n by {
                assert(s@.subrange(pos as int, pos + n.len()) == n);
            }
        }
        return Some((JsonValue::NumRaw(raw), q));
    }
    // A plain integer run: no fraction, no exponent.
    proof {
        assert forall|n: Seq<u8>| !(#[trigger] numraw_encoded_at(s@, pos as int, n)) by {
            if numraw_encoded_at(s@, pos as int, n) {
                assert(dend < s@.len());
            }
        }
    }
    let mag = match read_digits_val(s, dstart, dend) {
        Some(m) => m,
        None => {
            proof {
                assert forall|i: int| !(#[trigger] int_encoded_at(s@, pos as int, i)) by {
                    if int_encoded_at(s@, pos as int, i) {
                        lemma_int_structure(s@, pos as int, i);
                        let mag: nat = if i < 0 {
                            (-i) as nat
                        } else {
                            i as nat
                        };
                        lemma_dec_digits_val(mag);
                        assert(s@.subrange(dstart as int, dend as int) == dec_digits(mag));
                    }
                }
            }
            return None;
        },
    };
    proof {
        assert forall|i: int|
            #[trigger] int_encoded_at(s@, pos as int, i) implies mag == (if i < 0 {
            (-i) as nat
        } else {
            i as nat
        }) && (i < 0 <==> neg) by {
            lemma_int_structure(s@, pos as int, i);
            let m: nat = if i < 0 {
                (-i) as nat
            } else {
                i as nat
            };
            lemma_dec_digits_val(m);
            assert(s@.subrange(dstart as int, dend as int) == dec_digits(m));
        }
    }
    if neg {
        if mag > 9223372036854775808u64 {
            return None;
        }
        let v: i64 = if mag == 9223372036854775808u64 {
            i64::MIN
        } else {
            -(mag as i64)
        };
        return Some((JsonValue::Int(v), dend));
    }
    if mag > 9223372036854775807u64 {
        return None;
    }
    Some((JsonValue::Int(mag as i64), dend))
}

// ---------------------------------------------------------------------------
// Arrays and objects.
// ---------------------------------------------------------------------------

/// Within an encoded array, where element `m` starts, that it is itself
/// encoded there, and which separator byte follows it.
proof fn lemma_arr_elem(s: Seq<u8>, pos: int, a: Seq<JsonSpec>, m: int)
    requires
        value_encoded_at(s, pos, JsonSpec::Arr(a)),
        0 <= m < a.len(),
    ensures
        ({
            let parts = ser_list(a);
            let cur = pos + 1 + joined(parts.take(m)).len() + (if m > 0 {
                1int
            } else {
                0int
            });
            let c2 = cur + ser(a[m]).len();
            &&& value_encoded_at(s, cur, a[m])
            &&& c2 == pos + 1 + joined(parts.take(m + 1)).len()
            &&& c2 < s.len()
            &&& (m + 1 < a.len() ==> s[c2] == 44)
            &&& (m + 1 == a.len() ==> s[c2] == 93 && c2 + 1 == pos + ser(JsonSpec::Arr(a)).len())
        }),
{
    let parts = ser_list(a);
    let body = joined(parts);
    let full = ser(JsonSpec::Arr(a));
    assert(full == seq![91u8] + body + seq![93u8]);
    lemma_joined_decompose(parts, m);
    let pre = joined(parts.take(m));
    let sep: Seq<u8> = if m > 0 {
        seq![44u8]
    } else {
        Seq::<u8>::empty()
    };
    let tail: Seq<u8> = if m + 1 < parts.len() {
        seq![44u8] + joined(parts.skip(m + 1))
    } else {
        Seq::<u8>::empty()
    };
    assert(body == pre + sep + parts[m] + tail);
    assert(parts[m] == ser(a[m]));
    let cur = pos + 1 + pre.len() + sep.len();
    let c2 = cur + ser(a[m]).len();
    lemma_bytes_at_index(s, pos, full);
    // the element's bytes
    assert forall|t: int| 0 <= t < ser(a[m]).len() implies s[cur + t] == #[trigger] ser(a[m])[t] by {
        assert(full[1 + pre.len() + sep.len() + t] == body[pre.len() + sep.len() + t]);
        assert(body[pre.len() + sep.len() + t] == parts[m][t]);
        assert(s[pos + (1 + pre.len() + sep.len() + t)] == full[1 + pre.len() + sep.len() + t]);
    }
    assert(s.subrange(cur, cur + ser(a[m]).len() as int) =~= ser(a[m]));
    // the byte after the element
    if m + 1 < a.len() {
        assert(full[1 + pre.len() + sep.len() + ser(a[m]).len() as int] == tail[0]);
        assert(tail[0] == 44);
        assert(s[c2] == full[c2 - pos]);
    } else {
        assert(full[full.len() - 1] == 93);
        assert(c2 - pos == full.len() - 1);
        assert(s[c2] == full[c2 - pos]);
    }
    lemma_wf_arr(a, m);
    assert(follow_ok(s, c2));
    // end-position arithmetic
    assert(parts.take(m + 1) =~= parts.take(m).push(parts[m]));
    lemma_joined_push(parts.take(m), parts[m]);
    // the separator after element m, when it is not the last, is counted by
    // the next element's prefix, not here
    lemma_ser_shape(JsonSpec::Arr(a));
}

/// Within an encoded object, where member `m` starts: its quoted key, its
/// colon, its value, and which separator byte follows it.
proof fn lemma_obj_member(s: Seq<u8>, pos: int, o: Seq<(Seq<u8>, JsonSpec)>, m: int)
    requires
        value_encoded_at(s, pos, JsonSpec::Obj(o)),
        0 <= m < o.len(),
    ensures
        ({
            let parts = ser_obj_list(o);
            let cur = pos + 1 + joined(parts.take(m)).len() + (if m > 0 {
                1int
            } else {
                0int
            });
            let e = esc_bytes(o[m].0).len() as int;
            let c2 = cur + 3 + e + ser(o[m].1).len();
            &&& s[cur] == 34
            &&& str_encoded_at(s, cur + 1, o[m].0)
            &&& s[cur + 2 + e] == 58
            &&& value_encoded_at(s, cur + 3 + e, o[m].1)
            &&& c2 == pos + 1 + joined(parts.take(m + 1)).len()
            &&& c2 < s.len()
            &&& (m + 1 < o.len() ==> s[c2] == 44)
            &&& (m + 1 == o.len() ==> s[c2] == 125 && c2 + 1 == pos + ser(JsonSpec::Obj(o)).len())
        }),
{
    let parts = ser_obj_list(o);
    let body = joined(parts);
    let full = ser(JsonSpec::Obj(o));
    assert(full == seq![123u8] + body + seq![125u8]);
    lemma_joined_decompose(parts, m);
    let pre = joined(parts.take(m));
    let sep: Seq<u8> = if m > 0 {
        seq![44u8]
    } else {
        Seq::<u8>::empty()
    };
    let tail: Seq<u8> = if m + 1 < parts.len() {
        seq![44u8] + joined(parts.skip(m + 1))
    } else {
        Seq::<u8>::empty()
    };
    assert(body == pre + sep + parts[m] + tail);
    let k = o[m].0;
    let sv = ser(o[m].1);
    let e = esc_bytes(k).len() as int;
    assert(parts[m] == ser_member(k, sv));
    assert(ser_member(k, sv) == seq![34u8] + esc_bytes(k) + seq![34u8, 58u8] + sv);
    assert(parts[m].len() == e + 3 + sv.len());
    let cur = pos + 1 + pre.len() + sep.len();
    let c2 = cur + 3 + e + sv.len();
    lemma_bytes_at_index(s, pos, full);
    assert forall|t: int| 0 <= t < parts[m].len() implies s[cur + t] == #[trigger] parts[m][t] by {
        assert(full[1 + pre.len() + sep.len() + t] == body[pre.len() + sep.len() + t]);
        assert(body[pre.len() + sep.len() + t] == parts[m][t]);
        assert(s[pos + (1 + pre.len() + sep.len() + t)] == full[1 + pre.len() + sep.len() + t]);
    }
    // the pieces of the member
    assert(s[cur] == parts[m][0]);
    assert(parts[m][0] == 34);
    assert forall|t: int| 0 <= t < e implies s[cur + 1 + t] == esc_bytes(k)[t] by {
        assert(s[cur + (1 + t)] == parts[m][1 + t]);
        assert(parts[m][1 + t] == esc_bytes(k)[t]);
    }
    assert(s.subrange(cur + 1, cur + 1 + e) =~= esc_bytes(k));
    assert(s[cur + (1 + e)] == parts[m][1 + e]);
    assert(parts[m][1 + e] == 34);
    assert(s[cur + (2 + e)] == parts[m][2 + e]);
    assert(parts[m][2 + e] == 58);
    assert forall|t: int| 0 <= t < sv.len() implies s[cur + 3 + e + t] == sv[t] by {
        assert(s[cur + (3 + e + t)] == parts[m][3 + e + t]);
        assert(parts[m][3 + e + t] == sv[t]);
    }
    assert(s.subrange(cur + 3 + e, cur + 3 + e + sv.len() as int) =~= sv);
    // the byte after the member
    if m + 1 < o.len() {
        assert(full[1 + pre.len() + sep.len() + parts[m].len() as int] == tail[0]);
        assert(tail[0] == 44);
        assert(s[c2] == full[c2 - pos]);
    } else {
        assert(full[full.len() - 1] == 125);
        assert(c2 - pos == full.len() - 1);
        assert(s[c2] == full[c2 - pos]);
    }
    lemma_wf_obj(o, m);
    assert(follow_ok(s, c2 - sv.len() + sv.len()));
    assert(parts.take(m + 1) =~= parts.take(m).push(parts[m]));
    lemma_joined_push(parts.take(m), parts[m]);
}

/// An encoded empty array or object is its two bracket bytes.
proof fn lemma_empty_composite(s: Seq<u8>, pos: int, j: JsonSpec)
    requires
        value_encoded_at(s, pos, j),
        (j is Arr && j->Arr_0.len() == 0) || (j is Obj && j->Obj_0.len() == 0),
    ensures
        ser(j).len() == 2,
        j is Arr ==> s[pos] == 91 && s[pos + 1] == 93,
        j is Obj ==> s[pos] == 123 && s[pos + 1] == 125,
{
    lemma_bytes_at_index(s, pos, ser(j));
    if j is Arr {
        assert(ser_list(j->Arr_0) =~= Seq::<Seq<u8>>::empty());
        assert(ser(j) =~= seq![91u8, 93u8]);
        assert(s[pos + 0] == ser(j)[0]);
        assert(s[pos + 1] == ser(j)[1]);
    } else {
        assert(ser_obj_list(j->Obj_0) =~= Seq::<Seq<u8>>::empty());
        assert(ser(j) =~= seq![123u8, 125u8]);
        assert(s[pos + 0] == ser(j)[0]);
        assert(s[pos + 1] == ser(j)[1]);
    }
}

/// The first byte of anything encoded at `pos` is the input byte there.
proof fn lemma_first_byte(s: Seq<u8>, pos: int, j: JsonSpec)
    requires
        value_encoded_at(s, pos, j),
    ensures
        ser(j).len() >= 1,
        pos < s.len(),
        s[pos] == ser(j)[0],
{
    lemma_ser_shape(j);
    lemma_bytes_at_index(s, pos, ser(j));
    assert(s[pos + 0] == ser(j)[0]);
}

// ---------------------------------------------------------------------------
// Values.
// ---------------------------------------------------------------------------

/// Parses one value starting at `pos`. Wherever the serialization of a
/// well-formed value stands at `pos`, followed by nothing that could extend
/// it, the result is exactly that value and the position right after it.
#[verifier::loop_isolation(false)]
#[verifier::rlimit(100)]
pub fn parse_value(s: &Vec<u8>, pos: usize) -> (r: Option<(JsonValue, usize)>)
    requires
        pos <= s@.len(),
    ensures
        r is Some ==> pos < r->Some_0.1 <= s@.len(),
        forall|j: JsonSpec|
            #[trigger] value_encoded_at(s@, pos as int, j) ==> {
                &&& r is Some
                &&& r->Some_0.0.spec_val() == j
                &&& r->Some_0.1 == pos + ser(j).len()
            },
    decreases s@.len() - pos,
{
    let slen = s.len();
    if pos >= slen {
        proof {
            assert forall|j: JsonSpec| !(#[trigger] value_encoded_at(s@, pos as int, j)) by {
                if value_encoded_at(s@, pos as int, j) {
                    lemma_first_byte(s@, pos as int, j);
                }
            }
        }
        return None;
    }
    let b = s[pos];
    proof {
        assert forall|j: JsonSpec|
            #[trigger] value_encoded_at(s@, pos as int, j) implies s@[pos as int] == ser(j)[0]
            && ser(j).len() >= 1 by {
            lemma_first_byte(s@, pos as int, j);
        }
    }
    if b == 110 {
        // null
        if slen - pos < 4 || s[pos + 1] != 117 || s[pos + 2] != 108 || s[pos + 3] != 108 {
            proof {
                assert forall|j: JsonSpec| !(#[trigger] value_encoded_at(s@, pos as int, j)) by {
                    if value_encoded_at(s@, pos as int, j) {
                        lemma_ser_shape(j);
                        assert(j is Null);
                        lemma_bytes_at_index(s@, pos as int, ser(j));
                        assert(s@[pos + 1] == ser(j)[1]);
                        assert(s@[pos + 2] == ser(j)[2]);
                        assert(s@[pos + 3] == ser(j)[3]);
                    }
                }
            }
            return None;
        }
        proof {
            assert forall|j: JsonSpec|
                #[trigger] value_encoded_at(s@, pos as int, j) implies j == JsonSpec::Null && ser(
                j,
            ).len() == 4 by {
                lemma_ser_shape(j);
            }
        }
        return Some((JsonValue::Null, pos + 4));
    } else if b == 116 {
        // true
        if slen - pos < 4 || s[pos + 1] != 114 || s[pos + 2] != 117 || s[pos + 3] != 101 {
            proof {
                assert forall|j: JsonSpec| !(#[trigger] value_encoded_at(s@, pos as int, j)) by {
                    if value_encoded_at(s@, pos as int, j) {
                        lemma_ser_shape(j);
                        assert(j == JsonSpec::Bool(true));
                        lemma_bytes_at_index(s@, pos as int, ser(j));
                        assert(s@[pos + 1] == ser(j)[1]);
                        assert(s@[pos + 2] == ser(j)[2]);
                        assert(s@[pos + 3] == ser(j)[3]);
                    }
                }
            }
            return None;
        }
        proof {
            assert forall|j: JsonSpec|
                #[trigger] value_encoded_at(s@, pos as int, j) implies j == JsonSpec::Bool(true)
                && ser(j).len() == 4 by {
                lemma_ser_shape(j);
            }
        }
        return Some((JsonValue::Bool(true), pos + 4));
    } else if b == 102 {
        // false
        if slen - pos < 5 || s[pos + 1] != 97 || s[pos + 2] != 108 || s[pos + 3] != 115 || s[pos
            + 4] != 101 {
            proof {
                assert forall|j: JsonSpec| !(#[trigger] value_encoded_at(s@, pos as int, j)) by {
                    if value_encoded_at(s@, pos as int, j) {
                        lemma_ser_shape(j);
                        assert(j == JsonSpec::Bool(false));
                        lemma_bytes_at_index(s@, pos as int, ser(j));
                        assert(s@[pos + 1] == ser(j)[1]);
                        assert(s@[pos + 2] == ser(j)[2]);
                        assert(s@[pos + 3] == ser(j)[3]);
                        assert(s@[pos + 4] == ser(j)[4]);
                    }
                }
            }
            return None;
        }
        proof {
            assert forall|j: JsonSpec|
                #[trigger] value_encoded_at(s@, pos as int, j) implies j == JsonSpec::Bool(false)
                && ser(j).len() == 5 by {
                lemma_ser_shape(j);
            }
        }
        return Some((JsonValue::Bool(false), pos + 5));
    } else if b == 34 {
        // string
        proof {
            assert forall|j: JsonSpec|
                #[trigger] value_encoded_at(s@, pos as int, j) implies j is Str
                && str_encoded_at(s@, pos + 1, j->Str_0) by {
                lemma_ser_shape(j);
                assert(j is Str);
                let sb = j->Str_0;
                lemma_bytes_at_index(s@, pos as int, ser(j));
                assert forall|t: int| 0 <= t < esc_bytes(sb).len() implies s@[pos + 1 + t]
                    == esc_bytes(sb)[t] by {
                    assert(s@[pos + (1 + t)] == ser(j)[1 + t]);
                    assert(ser(j)[1 + t] == esc_bytes(sb)[t]);
                }
                assert(s@.subrange(pos + 1, pos + 1 + esc_bytes(sb).len() as int) =~= esc_bytes(
                    sb,
                ));
                assert(s@[pos + (1 + esc_bytes(sb).len() as int)] == ser(j)[1 + esc_bytes(
                    sb,
                ).len() as int]);
            }
        }
        match parse_string(s, pos + 1) {
            Some(p) => {
                return Some((JsonValue::Str(p.0), p.1));
            },
            None => {
                return None;
            },
        }
    } else if b == 45 || (48 <= b && b <= 57) {
        // number
        proof {
            assert forall|j: JsonSpec|
                #[trigger] value_encoded_at(s@, pos as int, j) implies (j is Int
                && int_encoded_at(s@, pos as int, j->Int_0)) || (j is NumRaw
                && numraw_encoded_at(s@, pos as int, j->NumRaw_0)) by {
                lemma_ser_shape(j);
            }
        }
        match parse_number(s, pos) {
            Some(p) => {
                return Some(p);
            },
            None => {
                return None;
            },
        }
    } else if b == 91 {
        // array
        proof {
            assert forall|j: JsonSpec|
                #[trigger] value_encoded_at(s@, pos as int, j) implies j is Arr by {
                lemma_ser_shape(j);
            }
        }
        let mut vec: Vec<JsonValue> = Vec::new();
        let mut cur: usize = pos + 1;
        if cur >= slen {
            proof {
                assert forall|j: JsonSpec| !(#[trigger] value_encoded_at(s@, pos as int, j)) by {
                    if value_encoded_at(s@, pos as int, j) {
                        lemma_ser_shape(j);
                        if j->Arr_0.len() == 0 {
                            lemma_empty_composite(s@, pos as int, j);
                        } else {
                            lemma_arr_elem(s@, pos as int, j->Arr_0, 0);
                        }
                    }
                }
            }
            return None;
        }
        if s[cur] == 93 {
            proof {
                assert forall|j: JsonSpec|
                    #[trigger] value_encoded_at(s@, pos as int, j) implies j == JsonSpec::Arr(
                    Seq::empty(),
                ) && ser(j).len() == 2 by {
                    if j->Arr_0.len() == 0 {
                        lemma_empty_composite(s@, pos as int, j);
                        assert(j->Arr_0 =~= Seq::<JsonSpec>::empty());
                    } else {
                        let a = j->Arr_0;
                        lemma_arr_elem(s@, pos as int, a, 0);
                        let parts = ser_list(a);
                        assert(parts.take(0) =~= Seq::<Seq<u8>>::empty());
                        lemma_first_byte(s@, pos + 1, a[0]);
                        lemma_ser_shape(a[0]);
                        assert(false);
                    }
                }
                assert(vals_of(vec@) =~= Seq::<JsonSpec>::empty());
            }
            return Some((JsonValue::Array(vec), cur + 1));
        }
        proof {
            assert forall|j: JsonSpec|
                #[trigger] value_encoded_at(s@, pos as int, j) implies j->Arr_0.len() > 0
                && vals_of(vec@) == j->Arr_0.take(0) && cur == pos + 1 + joined(
                ser_list(j->Arr_0).take(0),
            ).len() by {
                if j->Arr_0.len() == 0 {
                    lemma_empty_composite(s@, pos as int, j);
                }
                assert(j->Arr_0.take(0) =~= Seq::<JsonSpec>::empty());
                assert(vals_of(vec@) =~= Seq::<JsonSpec>::empty());
                assert(ser_list(j->Arr_0).take(0) =~= Seq::<Seq<u8>>::empty());
            }
        }
        loop
            invariant
                pos + 1 <= cur <= s@.len(),
                forall|j: JsonSpec|
                    #[trigger] value_encoded_at(s@, pos as int, j) ==> {
                        &&& j is Arr
                        &&& vec@.len() < j->Arr_0.len()
                        &&& vals_of(vec@) == j->Arr_0.take(vec@.len() as int)
                        &&& cur == pos + 1 + joined(ser_list(j->Arr_0).take(vec@.len() as int)).len()
                            + (if vec@.len() > 0 {
                            1int
                        } else {
                            0int
                        })
                    },
            decreases s@.len() - cur,
        {
            let ghost m = vec@.len() as int;
            proof {
                assert forall|j: JsonSpec|
                    #[trigger] value_encoded_at(s@, pos as int, j) implies value_encoded_at(
                    s@,
                    cur as int,
                    j->Arr_0[m],
                ) by {
                    lemma_arr_elem(s@, pos as int, j->Arr_0, m);
                }
            }
            let elem = match parse_value(s, cur) {
                Some(p) => p,
                None => {
                    return None;
                },
            };
            let v = elem.0;
            let c2 = elem.1;
            proof {
                assert forall|j: JsonSpec|
                    #[trigger] value_encoded_at(s@, pos as int, j) implies v.spec_val()
                    == j->Arr_0[m] && c2 == pos + 1 + joined(ser_list(j->Arr_0).take(m + 1)).len()
                    && c2 < s@.len() && (m + 1 < j->Arr_0.len() ==> s@[c2 as int] == 44) && (m + 1
                    == j->Arr_0.len() ==> s@[c2 as int] == 93 && c2 + 1 == pos + ser(j).len()) by {
                    lemma_arr_elem(s@, pos as int, j->Arr_0, m);
                }
            }
            let ghost oldv = vec@;
            vec.push(v);
            proof {
                assert forall|j: JsonSpec|
                    #[trigger] value_encoded_at(s@, pos as int, j) implies vals_of(vec@)
                    == j->Arr_0.take(m + 1) by {
                    lemma_vals_of_push(oldv, v);
                    assert(vec@ =~= oldv.push(v));
                    assert(j->Arr_0.take(m + 1) =~= j->Arr_0.take(m).push(j->Arr_0[m]));
                }
            }
            if c2 >= slen {
                return None;
            }
            let d = s[c2];
            if d == 44 {
                cur = c2 + 1;
            } else if d == 93 {
                proof {
                    assert forall|j: JsonSpec|
                        #[trigger] value_encoded_at(s@, pos as int, j) implies vals_of(vec@)
                        == j->Arr_0 && c2 + 1 == pos + ser(j).len() by {
                        if m + 1 < j->Arr_0.len() {
                            assert(s@[c2 as int] == 44);
                            assert(false);
                        }
                        assert(j->Arr_0.take(m + 1) =~= j->Arr_0);
                    }
                }
                return Some((JsonValue::Array(vec), c2 + 1));
            } else {
                return None;
            }
        }
    } else if b == 123 {
        // object
        proof {
            assert forall|j: JsonSpec|
                #[trigger] value_encoded_at(s@, pos as int, j) implies j is Obj by {
                lemma_ser_shape(j);
            }
        }
        let mut vec: Vec<(Vec<u8>, JsonValue)> = Vec::new();
        let mut cur: usize = pos + 1;
        if cur >= slen {
            proof {
                assert forall|j: JsonSpec| !(#[trigger] value_encoded_at(s@, pos as int, j)) by {
                    if value_encoded_at(s@, pos as int, j) {
                        lemma_ser_shape(j);
                        if j->Obj_0.len() == 0 {
                            lemma_empty_composite(s@, pos as int, j);
                        } else {
                            lemma_obj_member(s@, pos as int, j->Obj_0, 0);
                        }
                    }
                }
            }
            return None;
        }
        if s[cur] == 125 {
            proof {
                assert forall|j: JsonSpec|
                    #[trigger] value_encoded_at(s@, pos as int, j) implies j == JsonSpec::Obj(
                    Seq::empty(),
                ) && ser(j).len() == 2 by {
                    if j->Obj_0.len() == 0 {
                        lemma_empty_composite(s@, pos as int, j);
                        assert(j->Obj_0 =~= Seq::<(Seq<u8>, JsonSpec)>::empty());
                    } else {
                        lemma_obj_member(s@, pos as int, j->Obj_0, 0);
                        let parts = ser_obj_list(j->Obj_0);
                        assert(parts.take(0) =~= Seq::<Seq<u8>>::empty());
                        assert(false);
                    }
                }
                assert(members_of(vec@) =~= Seq::<(Seq<u8>, JsonSpec)>::empty());
            }
            return Some((JsonValue::Object(vec), cur + 1));
        }
        proof {
            assert forall|j: JsonSpec|
                #[trigger] value_encoded_at(s@, pos as int, j) implies j->Obj_0.len() > 0
                && members_of(vec@) == j->Obj_0.take(0) && cur == pos + 1 + joined(
                ser_obj_list(j->Obj_0).take(0),
            ).len() by {
                if j->Obj_0.len() == 0 {
                    lemma_empty_composite(s@, pos as int, j);
                }
                assert(j->Obj_0.take(0) =~= Seq::<(Seq<u8>, JsonSpec)>::empty());
                assert(members_of(vec@) =~= Seq::<(Seq<u8>, JsonSpec)>::empty());
                assert(ser_obj_list(j->Obj_0).take(0) =~= Seq::<Seq<u8>>::empty());
            }
        }
        loop
            invariant
                pos + 1 <= cur <= s@.len(),
                forall|j: JsonSpec|
                    #[trigger] value_encoded_at(s@, pos as int, j) ==> {
                        &&& j is Obj
                        &&& vec@.len() < j->Obj_0.len()
                        &&& members_of(vec@) == j->Obj_0.take(vec@.len() as int)
                        &&& cur == pos + 1 + joined(
                            ser_obj_list(j->Obj_0).take(vec@.len() as int),
                        ).len() + (if vec@.len() > 0 {
                            1int
                        } else {
                            0int
                        })
                    },
            decreases s@.len() - cur,
        {
            let ghost m = vec@.len() as int;
            proof {
                assert forall|j: JsonSpec|
                    #[trigger] value_encoded_at(s@, pos as int, j) implies s@[cur as int] == 34
                    && str_encoded_at(s@, cur + 1, j->Obj_0[m].0) && cur < s@.len() by {
                    lemma_obj_member(s@, pos as int, j->Obj_0, m);
                }
            }
            if cur >= slen || s[cur] != 34 {
                return None;
            }
            let kp = match parse_string(s, cur + 1) {
                Some(p) => p,
                None => {
                    return None;
                },
            };
            let key = kp.0;
            let kend = kp.1;
            proof {
                assert forall|j: JsonSpec|
                    #[trigger] value_encoded_at(s@, pos as int, j) implies key@ == j->Obj_0[m].0
                    && kend == cur + 2 + esc_bytes(j->Obj_0[m].0).len() && kend < s@.len()
                    && s@[kend as int] == 58 && value_encoded_at(s@, kend + 1, j->Obj_0[m].1) by {
                    lemma_obj_member(s@, pos as int, j->Obj_0, m);
                }
            }
            if kend >= slen || s[kend] != 58 {
                return None;
            }
            let elem = match parse_value(s, kend + 1) {
                Some(p) => p,
                None => {
                    return None;
                },
            };
            let v = elem.0;
            let c2 = elem.1;
            proof {
                assert forall|j: JsonSpec|
                    #[trigger] value_encoded_at(s@, pos as int, j) implies v.spec_val()
                    == j->Obj_0[m].1 && c2 == pos + 1 + joined(
                    ser_obj_list(j->Obj_0).take(m + 1),
                ).len() && c2 < s@.len() && (m + 1 < j->Obj_0.len() ==> s@[c2 as int] == 44) && (m
                    + 1 == j->Obj_0.len() ==> s@[c2 as int] == 125 && c2 + 1 == pos + ser(
                    j,
                ).len()) by {
                    lemma_obj_member(s@, pos as int, j->Obj_0, m);
                }
            }
            let ghost oldv = vec@;
            let ghost kv = (key, v);
            vec.push((key, v));
            proof {
                assert forall|j: JsonSpec|
                    #[trigger] value_encoded_at(s@, pos as int, j) implies members_of(vec@)
                    == j->Obj_0.take(m + 1) by {
                    lemma_members_of_push(oldv, kv);
                    assert(vec@ =~= oldv.push(kv));
                    assert(j->Obj_0.take(m + 1) =~= j->Obj_0.take(m).push(j->Obj_0[m]));
                }
            }
            if c2 >= slen {
                return None;
            }
            let d = s[c2];
            if d == 44 {
                cur = c2 + 1;
            } else if d == 125 {
                proof {
                    assert forall|j: JsonSpec|
                        #[trigger] value_encoded_at(s@, pos as int, j) implies members_of(vec@)
                        == j->Obj_0 && c2 + 1 == pos + ser(j).len() by {
                        if m + 1 < j->Obj_0.len() {
                            assert(s@[c2 as int] == 44);
                            assert(false);
                        }
                        assert(j->Obj_0.take(m + 1) =~= j->Obj_0);
                    }
                }
                return Some((JsonValue::Object(vec), c2 + 1));
            } else {
                return None;
            }
        }
    } else {
        proof {
            assert forall|j: JsonSpec| !(#[trigger] value_encoded_at(s@, pos as int, j)) by {
                if value_encoded_at(s@, pos as int, j) {
                    lemma_ser_shape(j);
                }
            }
        }
        return None;
    }
}

// ---------------------------------------------------------------------------
// Whole documents.
// ---------------------------------------------------------------------------

/// Parses a whole document: one value covering every byte. Parsing the
/// serialization of any well-formed value yields exactly that value back.
pub fn from_bytes(s: &Vec<u8>) -> (r: Option<JsonValue>)
    ensures
        forall|j: JsonSpec|
            wf(j) && s@ == ser(j) ==> r is Some && (#[trigger] r->Some_0.spec_val()) == j,
{
    proof {
        assert forall|j: JsonSpec|
            wf(j) && s@ == ser(j) implies value_encoded_at(s@, 0, j) by {
            assert(s@.subrange(0, ser(j).len() as int) =~= s@);
        }
    }
    match parse_value(s, 0) {
        Some(p) => {
            if p.1 == s.len() {
                Some(p.0)
            } else {
                None
            }
        },
        None => None,
    }
}

/// Whether the value is well-formed: its serialization parses back to
/// exactly this value.
#[verifier::loop_isolation(false)]
#[verifier::rlimit(80)]
pub fn check_wf(v: &JsonValue) -> (r: bool)
    ensures
        r == wf(v.spec_val()),
    decreases *v,
{
    match v {
        JsonValue::Null => true,
        JsonValue::Bool(_) => true,
        JsonValue::Int(_) => true,
        JsonValue::Str(_) => true,
        JsonValue::NumRaw(n) => {
            let i0: usize = if n.len() > 0 && n[0] == 45 {
                1
            } else {
                0
            };
            proof {
                assert(nr_i0(n@) == i0 as int);
            }
            let d1 = scan_digits(n, i0);
            proof {
                assert(nr_d1(n@) == d1 as int);
            }
            if d1 <= i0 || d1 >= n.len() {
                return false;
            }
            let c = n[d1];
            if !(c == 46 || c == 101 || c == 69) {
                return false;
            }
            let p: usize = if c == 46 {
                let d2 = scan_digits(n, d1 + 1);
                proof {
                    assert(nr_p(n@) == digits_end(n@, d1 + 1));
                }
                if d2 <= d1 + 1 {
                    return false;
                }
                d2
            } else {
                d1
            };
            proof {
                assert(nr_p(n@) == p as int);
            }
            if p == n.len() {
                return true;
            }
            let e = n[p];
            if !(e == 101 || e == 69) {
                return false;
            }
            if p + 1 >= n.len() {
                return false;
            }
            let qs: usize = if n[p + 1] == 43 || n[p + 1] == 45 {
                p + 2
            } else {
                p + 1
            };
            if qs > n.len() {
                return false;
            }
            let dq = scan_digits(n, qs);
            proof {
                assert(nr_qs(n@) == qs as int);
            }
            dq > qs && dq == n.len()
        },
        JsonValue::Array(a) => {
            let mut i: usize = 0;
            while i < a.len()
                invariant
                    i <= a@.len(),
                    forall|k: int| 0 <= k < i ==> wf(#[trigger] vals_of(a@)[k]),
                decreases a@.len() - i,
            {
                proof {
                    assert(*v is Array);
                    assert(decreases_to!(*v => v->Array_0));
                    assert(v->Array_0 == *a);
                    assert(decreases_to!(*a => a@));
                    assert(decreases_to!(a@ => a@[i as int]));
                }
                if !check_wf(&a[i]) {
                    proof {
                        assert(!wf(vals_of(a@)[i as int]));
                        assert(v.spec_val() == JsonSpec::Arr(vals_of(a@)));
                        if wf(v.spec_val()) {
                            lemma_wf_arr(vals_of(a@), i as int);
                        }
                    }
                    return false;
                }
                i = i + 1;
            }
            proof {
                assert(v.spec_val() == JsonSpec::Arr(vals_of(a@)));
                lemma_wf_arr_all(vals_of(a@));
            }
            true
        },
        JsonValue::Object(o) => {
            let mut i: usize = 0;
            while i < o.len()
                invariant
                    i <= o@.len(),
                    forall|k: int| 0 <= k < i ==> wf((#[trigger] members_of(o@)[k]).1),
                decreases o@.len() - i,
            {
                proof {
                    assert(*v is Object);
                    assert(decreases_to!(*v => v->Object_0));
                    assert(v->Object_0 == *o);
                    assert(decreases_to!(*o => o@));
                    assert(decreases_to!(o@ => o@[i as int]));
                    assert(decreases_to!(o@[i as int] => o@[i as int].1));
                }
                if !check_wf(&o[i].1) {
                    proof {
                        assert(!wf(members_of(o@)[i as int].1));
                        assert(v.spec_val() == JsonSpec::Obj(members_of(o@)));
                        if wf(v.spec_val()) {
                            lemma_wf_obj(members_of(o@), i as int);
                        }
                    }
                    return false;
                }
                i = i + 1;
            }
            proof {
                assert(v.spec_val() == JsonSpec::Obj(members_of(o@)));
                lemma_wf_obj_all(members_of(o@));
            }
            true
        },
    }
}

} // verus!
