//! The structured-data value model: a tagged union of null, booleans,
//! integers, raw number literals, byte strings, arrays and objects, together
//! with its byte-exact serialization and a parser for the same grammar.
//!
//! Payloads on the wire are opaque documents of this shape; the codec
//! guarantees that serializing a well-formed value and parsing the bytes
//! back yields the same value.

use vstd::prelude::*;

verus! {

broadcast use vstd::seq::group_seq_axioms, vstd::std_specs::vec::group_vec_axioms;

/// Mathematical model of a structured-data value.
#[verifier::ext_equal]
pub enum JsonSpec {
    Null,
    Bool(bool),
    Int(int),
    NumRaw(Seq<u8>),
    Str(Seq<u8>),
    Arr(Seq<JsonSpec>),
    Obj(Seq<(Seq<u8>, JsonSpec)>),
}

/// A structured-data value as held at run time. Strings are UTF-8 byte
/// sequences; numbers that are not plain integers are carried as their
/// literal bytes, uninterpreted.
#[derive(Debug, PartialEq, Eq)]
pub enum JsonValue {
    Null,
    Bool(bool),
    Int(i64),
    NumRaw(Vec<u8>),
    Str(Vec<u8>),
    Array(Vec<JsonValue>),
    Object(Vec<(Vec<u8>, JsonValue)>),
}

impl JsonValue {
    /// The mathematical value this run-time value stands for.
    pub open spec fn spec_val(self) -> JsonSpec
        decreases self,
    {
        match self {
            JsonValue::Null => JsonSpec::Null,
            JsonValue::Bool(b) => JsonSpec::Bool(b),
            JsonValue::Int(i) => JsonSpec::Int(i as int),
            JsonValue::NumRaw(n) => JsonSpec::NumRaw(n@),
            JsonValue::Str(s) => JsonSpec::Str(s@),
            JsonValue::Array(a) => JsonSpec::Arr(vals_of(a@)),
            JsonValue::Object(o) => JsonSpec::Obj(members_of(o@)),
        }
    }
}

/// The models of a sequence of run-time values.
pub open spec fn vals_of(a: Seq<JsonValue>) -> Seq<JsonSpec>
    decreases a,
{
    Seq::new(
        a.len(),
        |i: int|
            if 0 <= i < a.len() {
                a[i].spec_val()
            } else {
                JsonSpec::Null
            },
    )
}

/// The models of a sequence of run-time key-value pairs.
pub open spec fn members_of(o: Seq<(Vec<u8>, JsonValue)>) -> Seq<(Seq<u8>, JsonSpec)>
    decreases o,
{
    Seq::new(
        o.len(),
        |i: int|
            if 0 <= i < o.len() {
                (o[i].0@, o[i].1.spec_val())
            } else {
                (Seq::empty(), JsonSpec::Null)
            },
    )
}

// ---------------------------------------------------------------------------
// Serialization, as a mathematical function on the model.
// ---------------------------------------------------------------------------

/// Decimal digits of `n`, most significant first.
pub open spec fn dec_digits(n: nat) -> Seq<u8>
    decreases n,
{
    if n < 10 {
        seq![(48 + n) as u8]
    } else {
        dec_digits(n / 10).push((48 + n % 10) as u8)
    }
}

/// Serialization of an integer: an optional minus sign and decimal digits.
pub open spec fn ser_int(i: int) -> Seq<u8> {
    if i < 0 {
        seq![45u8] + dec_digits((-i) as nat)
    } else {
        dec_digits(i as nat)
    }
}

/// Lowercase hexadecimal digit for `n < 16`.
pub open spec fn hex_digit(n: u8) -> u8 {
    if n < 10 {
        (48 + n) as u8
    } else {
        (87 + n) as u8
    }
}

/// Canonical encoding of one string byte: quote and backslash get a
/// backslash escape, control bytes a `\u00XX` escape, everything else
/// stands for itself.
pub open spec fn esc_byte(b: u8) -> Seq<u8> {
    if b == 34 {
        seq![92u8, 34u8]
    } else if b == 92 {
        seq![92u8, 92u8]
    } else if b < 32 {
        seq![92u8, 117u8, 48u8, 48u8, hex_digit(b / 16), hex_digit(b % 16)]
    } else {
        seq![b]
    }
}

/// Canonical encoding of a whole string body.
pub open spec fn esc_bytes(s: Seq<u8>) -> Seq<u8>
    decreases s.len(),
{
    if s.len() == 0 {
        Seq::empty()
    } else {
        esc_byte(s[0]) + esc_bytes(s.drop_first())
    }
}

/// Comma-joined concatenation of already-serialized parts.
pub open spec fn joined(parts: Seq<Seq<u8>>) -> Seq<u8>
    decreases parts.len(),
{
    if parts.len() == 0 {
        Seq::empty()
    } else if parts.len() == 1 {
        parts[0]
    } else {
        parts[0] + seq![44u8] + joined(parts.drop_first())
    }
}

/// Serialization of one object member: quoted escaped key, a colon, and the
/// serialized value.
pub open spec fn ser_member(key: Seq<u8>, val: Seq<u8>) -> Seq<u8> {
    seq![34u8] + esc_bytes(key) + seq![34u8, 58u8] + val
}

/// The byte-exact serialization of a structured-data value.
pub open spec fn ser(j: JsonSpec) -> Seq<u8>
    decreases j,
{
    match j {
        JsonSpec::Null => seq![110u8, 117u8, 108u8, 108u8],
        JsonSpec::Bool(b) => if b {
            seq![116u8, 114u8, 117u8, 101u8]
        } else {
            seq![102u8, 97u8, 108u8, 115u8, 101u8]
        },
        JsonSpec::Int(i) => ser_int(i),
        JsonSpec::NumRaw(n) => n,
        JsonSpec::Str(s) => seq![34u8] + esc_bytes(s) + seq![34u8],
        JsonSpec::Arr(a) => seq![91u8] + joined(ser_list(a)) + seq![93u8],
        JsonSpec::Obj(o) => seq![123u8] + joined(ser_obj_list(o)) + seq![125u8],
    }
}

/// The serializations of each element of an array.
pub open spec fn ser_list(a: Seq<JsonSpec>) -> Seq<Seq<u8>>
    decreases a,
{
    Seq::new(
        a.len(),
        |i: int|
            if 0 <= i < a.len() {
                ser(a[i])
            } else {
                Seq::empty()
            },
    )
}

/// The serializations of each member of an object.
pub open spec fn ser_obj_list(o: Seq<(Seq<u8>, JsonSpec)>) -> Seq<Seq<u8>>
    decreases o,
{
    Seq::new(
        o.len(),
        |i: int|
            if 0 <= i < o.len() {
                ser_member(o[i].0, ser(o[i].1))
            } else {
                Seq::empty()
            },
    )
}

// ---------------------------------------------------------------------------
// Well-formedness: the values whose serialization parses back exactly.
// ---------------------------------------------------------------------------

pub open spec fn is_digit(b: u8) -> bool {
    48 <= b <= 57
}

/// A byte that could extend a number literal to the right. A serialized
/// value followed by a byte outside this set parses back unambiguously.
pub open spec fn num_cont_byte(b: u8) -> bool {
    is_digit(b) || b == 46 || b == 101 || b == 69 || b == 43 || b == 45
}

/// First index at or after `i` that does not hold a decimal digit.
pub open spec fn digits_end(s: Seq<u8>, i: int) -> int
    decreases s.len() - i,
{
    if 0 <= i < s.len() && is_digit(s[i]) {
        digits_end(s, i + 1)
    } else {
        i
    }
}

/// Index after the optional leading minus sign of a number literal.
pub open spec fn nr_i0(n: Seq<u8>) -> int {
    if n.len() > 0 && n[0] == 45 {
        1int
    } else {
        0int
    }
}

/// End of the integer digit group.
pub open spec fn nr_d1(n: Seq<u8>) -> int {
    digits_end(n, nr_i0(n))
}

/// End of the fraction group, or the end of the integer group where no
/// fraction follows.
pub open spec fn nr_p(n: Seq<u8>) -> int {
    if nr_d1(n) < n.len() && n[nr_d1(n)] == 46 {
        digits_end(n, nr_d1(n) + 1)
    } else {
        nr_d1(n)
    }
}

/// Start of the exponent digit group, after the marker and optional sign.
pub open spec fn nr_qs(n: Seq<u8>) -> int {
    if nr_p(n) + 1 < n.len() && (n[nr_p(n) + 1] == 43 || n[nr_p(n) + 1] == 45) {
        nr_p(n) + 2
    } else {
        nr_p(n) + 1
    }
}

/// A raw number literal: optional minus sign, an integer digit group, then
/// a fraction group or an exponent group or both, reaching the end of the
/// literal. A literal without either group is a plain integer and is
/// carried as `Int`, never as `NumRaw`.
pub open spec fn numraw_ok(n: Seq<u8>) -> bool {
    &&& nr_i0(n) < nr_d1(n)
    &&& nr_d1(n) < n.len()
    &&& (n[nr_d1(n)] == 46 || n[nr_d1(n)] == 101 || n[nr_d1(n)] == 69)
    &&& (n[nr_d1(n)] == 46 ==> nr_p(n) > nr_d1(n) + 1)
    &&& (nr_p(n) == n.len() || ((n[nr_p(n)] == 101 || n[nr_p(n)] == 69) && nr_p(n) + 1 < n.len()
        && nr_qs(n) < digits_end(n, nr_qs(n)) && digits_end(n, nr_qs(n)) == n.len()))
}

/// An array is well-formed exactly when its elements are.
pub proof fn lemma_wf_arr(m: Seq<JsonSpec>, i: int)
    requires
        wf(JsonSpec::Arr(m)),
        0 <= i < m.len(),
    ensures
        wf(m[i]),
    decreases m.len(),
{
    if i == m.len() - 1 {
    } else {
        assert(m.drop_last()[i] == m[i]);
        assert(wf(JsonSpec::Arr(m.drop_last())));
        lemma_wf_arr(m.drop_last(), i);
    }
}

/// All elements well-formed makes the array well-formed.
pub proof fn lemma_wf_arr_all(m: Seq<JsonSpec>)
    requires
        forall|i: int| 0 <= i < m.len() ==> #[trigger] wf(m[i]),
    ensures
        wf(JsonSpec::Arr(m)),
    decreases m.len(),
{
    if m.len() > 0 {
        assert forall|i: int| 0 <= i < m.drop_last().len() implies #[trigger] wf(
            m.drop_last()[i],
        ) by {
            assert(m.drop_last()[i] == m[i]);
        }
        lemma_wf_arr_all(m.drop_last());
        assert(wf(m[m.len() - 1]));
    }
}

/// An object is well-formed exactly when its member values are.
pub proof fn lemma_wf_obj(m: Seq<(Seq<u8>, JsonSpec)>, i: int)
    requires
        wf(JsonSpec::Obj(m)),
        0 <= i < m.len(),
    ensures
        wf(m[i].1),
    decreases m.len(),
{
    if i == m.len() - 1 {
    } else {
        assert(m.drop_last()[i] == m[i]);
        assert(wf(JsonSpec::Obj(m.drop_last())));
        lemma_wf_obj(m.drop_last(), i);
    }
}

/// All member values well-formed makes the object well-formed.
pub proof fn lemma_wf_obj_all(m: Seq<(Seq<u8>, JsonSpec)>)
    requires
        forall|i: int| 0 <= i < m.len() ==> #[trigger] wf(m[i].1),
    ensures
        wf(JsonSpec::Obj(m)),
    decreases m.len(),
{
    if m.len() > 0 {
        assert forall|i: int| 0 <= i < m.drop_last().len() implies #[trigger] wf(
            m.drop_last()[i].1,
        ) by {
            assert(m.drop_last()[i] == m[i]);
        }
        lemma_wf_obj_all(m.drop_last());
        assert(wf(m[m.len() - 1].1));
    }
}

/// The values the codec round-trips: integers within the machine range and
/// raw number literals that match the number grammar.
pub open spec fn wf(j: JsonSpec) -> bool
    decreases j,
{
    match j {
        JsonSpec::Null => true,
        JsonSpec::Bool(_) => true,
        JsonSpec::Int(i) => i64::MIN <= i <= i64::MAX,
        JsonSpec::NumRaw(n) => numraw_ok(n),
        JsonSpec::Str(_) => true,
        JsonSpec::Arr(a) => wf_list(a),
        JsonSpec::Obj(o) => wf_members(o),
    }
}

/// Well-formedness of every element of an array.
pub open spec fn wf_list(a: Seq<JsonSpec>) -> bool
    decreases a,
{
    a.len() == 0 || (wf(a.last()) && wf_list(a.drop_last()))
}

/// Well-formedness of every member value of an object.
pub open spec fn wf_members(o: Seq<(Seq<u8>, JsonSpec)>) -> bool
    decreases o,
{
    o.len() == 0 || (wf(o.last().1) && wf_members(o.drop_last()))
}

// ---------------------------------------------------------------------------
// Facts about the serialization functions.
// ---------------------------------------------------------------------------

/// The value of a digit string, read left to right.
pub open spec fn digits_val(ds: Seq<u8>) -> nat
    decreases ds.len(),
{
    if ds.len() == 0 {
        0
    } else {
        digits_val(ds.drop_last()) * 10 + (if ds.last() >= 48 {
            (ds.last() - 48) as nat
        } else {
            0
        })
    }
}

/// Decimal digits are digits, there is at least one, and the first is not a
/// zero unless the number is zero.
pub proof fn lemma_dec_digits_shape(n: nat)
    ensures
        dec_digits(n).len() >= 1,
        forall|i: int| 0 <= i < dec_digits(n).len() ==> is_digit(#[trigger] dec_digits(n)[i]),
    decreases n,
{
    if n >= 10 {
        lemma_dec_digits_shape(n / 10);
    }
}

/// Reading the decimal digits of `n` back yields `n`.
pub proof fn lemma_dec_digits_val(n: nat)
    ensures
        digits_val(dec_digits(n)) == n,
    decreases n,
{
    if n < 10 {
        let ds = dec_digits(n);
        assert(ds =~= seq![(48 + n) as u8]);
        assert(ds.len() == 1);
        assert(ds.last() == (48 + n) as u8);
        assert(ds.drop_last() =~= Seq::<u8>::empty());
        assert(digits_val(ds.drop_last()) == 0);
        assert(ds.last() >= 48);
        assert(digits_val(ds) == 0 * 10 + ((ds.last() - 48) as nat));
    } else {
        lemma_dec_digits_val(n / 10);
        lemma_dec_digits_shape(n / 10);
        let ds = dec_digits(n);
        assert(ds == dec_digits(n / 10).push((48 + n % 10) as u8));
        assert(ds.len() == dec_digits(n / 10).len() + 1);
        assert(ds.drop_last() =~= dec_digits(n / 10));
        assert(ds.last() == (48 + n % 10) as u8);
        assert(ds.last() >= 48);
        assert(digits_val(ds) == digits_val(dec_digits(n / 10)) * 10 + ((ds.last() - 48) as nat));
        assert((n / 10) * 10 + n % 10 == n);
    }
}

/// Appending one part to a joined list appends a comma and the part.
pub proof fn lemma_joined_push(parts: Seq<Seq<u8>>, p: Seq<u8>)
    ensures
        parts.len() == 0 ==> joined(parts.push(p)) == p,
        parts.len() > 0 ==> joined(parts.push(p)) == joined(parts) + seq![44u8] + p,
    decreases parts.len(),
{
    if parts.len() == 0 {
        assert(joined(parts.push(p)) == parts.push(p)[0]);
        assert(parts.push(p)[0] == p);
    } else if parts.len() == 1 {
        let w = parts.push(p);
        assert(w.len() == 2);
        assert(w[0] == parts[0]);
        assert(w.drop_first() =~= seq![p]);
        assert(joined(w) == w[0] + seq![44u8] + joined(w.drop_first()));
    } else {
        lemma_joined_push(parts.drop_first(), p);
        let w = parts.push(p);
        assert(w.drop_first() =~= parts.drop_first().push(p));
        assert(w[0] == parts[0]);
        assert(joined(w) == w[0] + seq![44u8] + joined(w.drop_first()));
        assert(joined(parts) + seq![44u8] + p == parts[0] + seq![44u8] + (joined(
            parts.drop_first(),
        ) + seq![44u8] + p));
    }
}

/// Escaping distributes over appending one byte.
pub proof fn lemma_esc_bytes_push(s: Seq<u8>, b: u8)
    ensures
        esc_bytes(s.push(b)) == esc_bytes(s) + esc_byte(b),
    decreases s.len(),
{
    if s.len() == 0 {
        assert(s.push(b)[0] == b);
        assert(s.push(b).drop_first() =~= Seq::<u8>::empty());
        assert(esc_bytes(s.push(b)) == esc_byte(b) + esc_bytes(Seq::<u8>::empty()));
        assert(esc_byte(b) + Seq::<u8>::empty() =~= esc_byte(b));
        assert(esc_bytes(s) + esc_byte(b) =~= esc_byte(b));
    } else {
        lemma_esc_bytes_push(s.drop_first(), b);
        assert(s.push(b)[0] == s[0]);
        assert(s.push(b).drop_first() =~= s.drop_first().push(b));
        assert(esc_bytes(s) + esc_byte(b) =~= esc_byte(s[0]) + (esc_bytes(s.drop_first())
            + esc_byte(b)));
    }
}

// ---------------------------------------------------------------------------
// The executable serializer.
// ---------------------------------------------------------------------------

/// Appends the decimal digits of `m` to `out`.
pub(crate) fn write_u64_digits(m: u64, out: &mut Vec<u8>)
    ensures
        final(out)@ == old(out)@ + dec_digits(m as nat),
{
    let mut rev: Vec<u8> = Vec::new();
    let mut k: u64 = m;
    while k >= 10
        invariant
            dec_digits(m as nat) == dec_digits(k as nat) + rev@.reverse(),
        decreases k,
    {
        proof {
            assert(dec_digits(k as nat) == dec_digits((k as nat) / 10).push(
                (48 + (k as nat) % 10) as u8,
            ));
            assert(rev@.push((48 + k % 10) as u8).reverse() =~= seq![(48 + (k as nat) % 10) as u8]
                + rev@.reverse());
            assert(dec_digits((k as nat) / 10) + (seq![(48 + (k as nat) % 10) as u8]
                + rev@.reverse()) =~= dec_digits((k as nat) / 10).push(
                (48 + (k as nat) % 10) as u8,
            ) + rev@.reverse());
        }
        rev.push(48 + (k % 10) as u8);
        k = k / 10;
    }
    proof {
        assert(dec_digits(k as nat) =~= seq![(48 + k) as u8]);
    }
    rev.push(48 + k as u8);
    proof {
        assert(rev@.reverse() =~= seq![(48 + k) as u8] + rev@.drop_last().reverse());
        assert(dec_digits(m as nat) =~= seq![(48 + k) as u8] + rev@.drop_last().reverse());
        assert(rev@.drop_last() =~= rev@.subrange(0, rev@.len() - 1));
    }
    let mut j: usize = rev.len();
    while j > 0
        invariant
            j <= rev.len(),
            out@ == old(out)@ + rev@.subrange(j as int, rev@.len() as int).reverse(),
        decreases j,
    {
        j = j - 1;
        let b = rev[j];
        proof {
            assert(rev@.subrange(j as int, rev@.len() as int).reverse() =~= rev@.subrange(
                j + 1,
                rev@.len() as int,
            ).reverse().push(rev@[j as int]));
        }
        out.push(b);
    }
    proof {
        assert(rev@.subrange(0, rev@.len() as int) =~= rev@);
        assert(dec_digits(m as nat) =~= rev@.reverse());
    }
}

/// Appends the serialization of the integer `i` to `out`.
fn write_int(i: i64, out: &mut Vec<u8>)
    ensures
        final(out)@ == old(out)@ + ser_int(i as int),
{
    if i < 0 {
        out.push(45);
        let m: u64 = if i == i64::MIN {
            9223372036854775808u64
        } else {
            (-i) as u64
        };
        assert(m as nat == (-(i as int)) as nat);
        write_u64_digits(m, out);
        assert(out@ =~= old(out)@ + (seq![45u8] + dec_digits((-(i as int)) as nat)));
    } else {
        write_u64_digits(i as u64, out);
    }
}

/// Appends the canonical escaping of the string body `s` to `out`.
fn write_escaped(s: &Vec<u8>, out: &mut Vec<u8>)
    ensures
        final(out)@ == old(out)@ + esc_bytes(s@),
{
    let mut i: usize = 0;
    proof {
        assert(s@.take(0) =~= Seq::<u8>::empty());
    }
    while i < s.len()
        invariant
            i <= s.len(),
            out@ == old(out)@ + esc_bytes(s@.take(i as int)),
        decreases s.len() - i,
    {
        let b = s[i];
        proof {
            assert(s@.take(i + 1) =~= s@.take(i as int).push(s@[i as int]));
            lemma_esc_bytes_push(s@.take(i as int), s@[i as int]);
        }
        if b == 34 {
            out.push(92);
            out.push(34);
        } else if b == 92 {
            out.push(92);
            out.push(92);
        } else if b < 32 {
            out.push(92);
            out.push(117);
            out.push(48);
            out.push(48);
            let hi = b / 16;
            let lo = b % 16;
            out.push(if hi < 10 {
                48 + hi
            } else {
                87 + hi
            });
            out.push(if lo < 10 {
                48 + lo
            } else {
                87 + lo
            });
        } else {
            out.push(b);
        }
        assert(out@ =~= old(out)@ + esc_bytes(s@.take(i + 1)));
        i = i + 1;
    }
    proof {
        assert(s@.take(s@.len() as int) =~= s@);
    }
}

/// Appends the byte-exact serialization of `v` to `out`.
#[verifier::loop_isolation(false)]
#[verifier::rlimit(80)]
pub fn write_value(v: &JsonValue, out: &mut Vec<u8>)
    ensures
        final(out)@ == old(out)@ + ser(v.spec_val()),
    decreases *v,
{
    match v {
        JsonValue::Null => {
            out.push(110);
            out.push(117);
            out.push(108);
            out.push(108);
            assert(out@ =~= old(out)@ + ser(v.spec_val()));
        },
        JsonValue::Bool(b) => {
            if *b {
                out.push(116);
                out.push(114);
                out.push(117);
                out.push(101);
            } else {
                out.push(102);
                out.push(97);
                out.push(108);
                out.push(115);
                out.push(101);
            }
            assert(out@ =~= old(out)@ + ser(v.spec_val()));
        },
        JsonValue::Int(i) => {
            write_int(*i, out);
        },
        JsonValue::NumRaw(n) => {
            let mut k: usize = 0;
            while k < n.len()
                invariant
                    k <= n.len(),
                    out@ == old(out)@ + n@.take(k as int),
                decreases n.len() - k,
            {
                proof {
                    assert(n@.take(k + 1) =~= n@.take(k as int).push(n@[k as int]));
                }
                out.push(n[k]);
                k = k + 1;
            }
            proof {
                assert(n@.take(n@.len() as int) =~= n@);
            }
        },
        JsonValue::Str(s) => {
            out.push(34);
            write_escaped(s, out);
            out.push(34);
            assert(out@ =~= old(out)@ + (seq![34u8] + esc_bytes(s@) + seq![34u8]));
        },
        JsonValue::Array(a) => {
            let ghost parts = Seq::new(
                a@.len(),
                |i: int|
                    if 0 <= i < a@.len() {
                        ser(a@[i].spec_val())
                    } else {
                        Seq::empty()
                    },
            );
            out.push(91);
            let mut k: usize = 0;
            proof {
                assert(parts.take(0) =~= Seq::<Seq<u8>>::empty());
            }
            while k < a.len()
                invariant
                    k <= a.len(),
                    parts == Seq::new(
                        a@.len(),
                        |i: int|
                            if 0 <= i < a@.len() {
                                ser(a@[i].spec_val())
                            } else {
                                Seq::empty()
                            },
                    ),
                    out@ == old(out)@ + seq![91u8] + joined(parts.take(k as int)),
                decreases a.len() - k,
            {
                if k > 0 {
                    out.push(44);
                }
                proof {
                    assert(*v is Array);
                    assert(decreases_to!(*v => v->Array_0));
                    assert(v->Array_0 == *a);
                    assert(decreases_to!(*a => a@));
                    assert(decreases_to!(a@ => a@[k as int]));
                }
                write_value(&a[k], out);
                proof {
                    assert(parts.take(k + 1) =~= parts.take(k as int).push(parts[k as int]));
                    lemma_joined_push(parts.take(k as int), parts[k as int]);
                    assert(out@ =~= old(out)@ + seq![91u8] + joined(parts.take(k + 1)));
                }
                k = k + 1;
            }
            out.push(93);
            proof {
                assert(parts.take(a@.len() as int) =~= parts);
                let jv = v.spec_val();
                assert(jv == JsonSpec::Arr(vals_of(a@)));
                assert(ser_list(vals_of(a@)) =~= parts);
                assert(ser(jv) == seq![91u8] + joined(parts) + seq![93u8]);
                assert(out@ =~= old(out)@ + (seq![91u8] + joined(parts) + seq![93u8]));
            }
        },
        JsonValue::Object(o) => {
            let ghost parts = Seq::new(
                o@.len(),
                |i: int|
                    if 0 <= i < o@.len() {
                        ser_member(o@[i].0@, ser(o@[i].1.spec_val()))
                    } else {
                        Seq::empty()
                    },
            );
            out.push(123);
            let mut k: usize = 0;
            proof {
                assert(parts.take(0) =~= Seq::<Seq<u8>>::empty());
            }
            while k < o.len()
                invariant
                    k <= o.len(),
                    parts == Seq::new(
                        o@.len(),
                        |i: int|
                            if 0 <= i < o@.len() {
                                ser_member(o@[i].0@, ser(o@[i].1.spec_val()))
                            } else {
                                Seq::empty()
                            },
                    ),
                    out@ == old(out)@ + seq![123u8] + joined(parts.take(k as int)),
                decreases o.len() - k,
            {
                if k > 0 {
                    out.push(44);
                }
                proof {
                    assert(*v is Object);
                    assert(decreases_to!(*v => v->Object_0));
                    assert(v->Object_0 == *o);
                    assert(decreases_to!(*o => o@));
                    assert(decreases_to!(o@ => o@[k as int]));
                    assert(decreases_to!(o@[k as int] => o@[k as int].1));
                }
                let kv = &o[k];
                out.push(34);
                write_escaped(&kv.0, out);
                out.push(34);
                out.push(58);
                write_value(&kv.1, out);
                proof {
                    assert(parts.take(k + 1) =~= parts.take(k as int).push(parts[k as int]));
                    lemma_joined_push(parts.take(k as int), parts[k as int]);
                    assert(out@ =~= old(out)@ + seq![123u8] + joined(parts.take(k + 1)));
                }
                k = k + 1;
            }
            out.push(125);
            proof {
                assert(parts.take(o@.len() as int) =~= parts);
                let jv = v.spec_val();
                assert(jv == JsonSpec::Obj(members_of(o@)));
                assert(ser_obj_list(members_of(o@)) =~= parts);
                assert(ser(jv) == seq![123u8] + joined(parts) + seq![125u8]);
                assert(out@ =~= old(out)@ + (seq![123u8] + joined(parts) + seq![125u8]));
            }
        },
    }
}

// ---------------------------------------------------------------------------
// Structure of serialized bytes, for the parser's completeness proofs.
// ---------------------------------------------------------------------------

/// One byte's escape: its length, its first byte, and what a leading
/// backslash or a leading plain byte reveals about the original byte.
pub proof fn lemma_esc_byte_shape(b: u8)
    ensures
        1 <= esc_byte(b).len() <= 6,
        esc_byte(b)[0] != 34,
        esc_byte(b)[0] == 92 <==> (b == 34 || b == 92 || b < 32),
        esc_byte(b)[0] != 92 ==> esc_byte(b) == seq![b],
        b == 34 ==> esc_byte(b) =~= seq![92u8, 34u8],
        b == 92 ==> esc_byte(b) =~= seq![92u8, 92u8],
        b < 32 ==> esc_byte(b) =~= seq![92u8, 117u8, 48u8, 48u8, hex_digit(b / 16), hex_digit(
            b % 16,
        )],
{
}

/// Escaping a string splits around any index.
pub proof fn lemma_esc_bytes_split(sb: Seq<u8>, k: int)
    requires
        0 <= k < sb.len(),
    ensures
        esc_bytes(sb) == esc_bytes(sb.take(k)) + esc_byte(sb[k]) + esc_bytes(sb.skip(k + 1)),
    decreases k,
{
    if k == 0 {
        assert(sb.take(0) =~= Seq::<u8>::empty());
        assert(esc_bytes(sb.take(0)) =~= Seq::<u8>::empty());
        assert(sb.skip(1) =~= sb.drop_first());
        assert(esc_bytes(sb) == esc_byte(sb[0]) + esc_bytes(sb.drop_first()));
        assert(esc_bytes(sb.take(0)) + esc_byte(sb[0]) + esc_bytes(sb.skip(1)) =~= esc_byte(sb[0])
            + esc_bytes(sb.drop_first()));
    } else {
        lemma_esc_bytes_split(sb.drop_first(), k - 1);
        assert(sb.drop_first().take(k - 1) =~= sb.take(k).drop_first());
        assert(sb.drop_first()[k - 1] == sb[k]);
        assert(sb.drop_first().skip(k) =~= sb.skip(k + 1));
        assert(esc_bytes(sb) == esc_byte(sb[0]) + esc_bytes(sb.drop_first()));
        assert(esc_bytes(sb.take(k)) == esc_byte(sb.take(k)[0]) + esc_bytes(
            sb.take(k).drop_first(),
        ));
        assert(sb.take(k)[0] == sb[0]);
        assert(esc_byte(sb[0]) + (esc_bytes(sb.take(k).drop_first()) + esc_byte(sb[k])
            + esc_bytes(sb.skip(k + 1))) =~= (esc_byte(sb[0]) + esc_bytes(sb.take(k).drop_first()))
            + esc_byte(sb[k]) + esc_bytes(sb.skip(k + 1)));
    }
}

/// The escaped length never undercuts the string length.
pub proof fn lemma_esc_bytes_len(sb: Seq<u8>)
    ensures
        esc_bytes(sb).len() >= sb.len(),
    decreases sb.len(),
{
    if sb.len() > 0 {
        lemma_esc_bytes_len(sb.drop_first());
        lemma_esc_byte_shape(sb[0]);
    }
}

/// A joined list decomposes around any part: everything before it (with its
/// separators), one separator if it is not first, the part, then one
/// separator and the rest if it is not last.
pub proof fn lemma_joined_decompose(parts: Seq<Seq<u8>>, m: int)
    requires
        0 <= m < parts.len(),
    ensures
        joined(parts) == joined(parts.take(m)) + (if m > 0 {
            seq![44u8]
        } else {
            Seq::<u8>::empty()
        }) + parts[m] + (if m + 1 < parts.len() {
            seq![44u8] + joined(parts.skip(m + 1))
        } else {
            Seq::<u8>::empty()
        }),
    decreases m,
{
    let sep: Seq<u8> = if m > 0 {
        seq![44u8]
    } else {
        Seq::<u8>::empty()
    };
    let tail: Seq<u8> = if m + 1 < parts.len() {
        seq![44u8] + joined(parts.skip(m + 1))
    } else {
        Seq::<u8>::empty()
    };
    if m == 0 {
        assert(parts.take(0) =~= Seq::<Seq<u8>>::empty());
        if parts.len() == 1 {
            assert(joined(parts) == parts[0]);
            assert(joined(parts.take(0)) + sep + parts[0] + tail =~= parts[0]);
        } else {
            assert(joined(parts) == parts[0] + seq![44u8] + joined(parts.drop_first()));
            assert(parts.skip(1) =~= parts.drop_first());
            assert(joined(parts.take(0)) + sep + parts[0] + tail =~= parts[0] + seq![44u8]
                + joined(parts.drop_first()));
        }
    } else {
        lemma_joined_decompose(parts.drop_first(), m - 1);
        let d = parts.drop_first();
        assert(parts.len() >= 2);
        assert(joined(parts) == parts[0] + seq![44u8] + joined(d));
        assert(d.take(m - 1) =~= parts.take(m).drop_first());
        assert(d[m - 1] == parts[m]);
        assert(d.skip(m) =~= parts.skip(m + 1));
        let sep2: Seq<u8> = if m - 1 > 0 {
            seq![44u8]
        } else {
            Seq::<u8>::empty()
        };
        let tail2: Seq<u8> = if m < d.len() {
            seq![44u8] + joined(d.skip(m))
        } else {
            Seq::<u8>::empty()
        };
        assert(tail2 =~= tail);
        assert(joined(d) == joined(d.take(m - 1)) + sep2 + parts[m] + tail2);
        if m == 1 {
            assert(parts.take(1).len() == 1);
            assert(joined(parts.take(1)) == parts.take(1)[0]);
            assert(parts.take(1)[0] == parts[0]);
            assert(d.take(0) =~= Seq::<Seq<u8>>::empty());
            assert(joined(d.take(0)) =~= Seq::<u8>::empty());
            assert(joined(d) =~= parts[m] + tail);
            assert(parts[0] + seq![44u8] + (parts[m] + tail) =~= joined(parts.take(1)) + sep
                + parts[m] + tail);
        } else {
            assert(parts.take(m).len() == m);
            assert(joined(parts.take(m)) == parts.take(m)[0] + seq![44u8] + joined(
                parts.take(m).drop_first(),
            ));
            assert(parts.take(m)[0] == parts[0]);
            assert(sep2 =~= seq![44u8]);
            assert(parts[0] + seq![44u8] + (joined(parts.take(m).drop_first()) + seq![44u8]
                + parts[m] + tail) =~= (parts[0] + seq![44u8] + joined(parts.take(m).drop_first()))
                + seq![44u8] + parts[m] + tail);
        }
    }
}

/// Every serialized well-formed value is nonempty, and its first byte names
/// its constructor.
pub proof fn lemma_ser_shape(j: JsonSpec)
    requires
        wf(j),
    ensures
        ser(j).len() >= 1,
        j is Null ==> ser(j)[0] == 110,
        j is Bool ==> (ser(j)[0] == 116 || ser(j)[0] == 102),
        j is Bool && j->Bool_0 ==> ser(j)[0] == 116,
        j is Bool && !j->Bool_0 ==> ser(j)[0] == 102,
        j is Int ==> (ser(j)[0] == 45 || is_digit(ser(j)[0])),
        j is NumRaw ==> (ser(j)[0] == 45 || is_digit(ser(j)[0])),
        j is Str ==> ser(j)[0] == 34,
        j is Arr ==> ser(j)[0] == 91,
        j is Obj ==> ser(j)[0] == 123,
{
    match j {
        JsonSpec::Int(i) => {
            if i < 0 {
                lemma_dec_digits_shape((-i) as nat);
            } else {
                lemma_dec_digits_shape(i as nat);
                assert(ser(j) == dec_digits(i as nat));
                assert(is_digit(dec_digits(i as nat)[0]));
            }
        },
        JsonSpec::NumRaw(n) => {
            if n[0] != 45 {
                assert(digits_end(n, 0) > 0);
                assert(is_digit(n[0]));
            }
        },
        _ => {},
    }
}

/// The models of a pushed sequence are the models plus the new model.
pub proof fn lemma_vals_of_push(a: Seq<JsonValue>, v: JsonValue)
    ensures
        vals_of(a.push(v)) =~= vals_of(a).push(v.spec_val()),
{
}

/// Likewise for object members.
pub proof fn lemma_members_of_push(o: Seq<(Vec<u8>, JsonValue)>, kv: (Vec<u8>, JsonValue))
    ensures
        members_of(o.push(kv)) =~= members_of(o).push((kv.0@, kv.1.spec_val())),
{
}

/// The byte-exact serialization of `v`, as a fresh buffer.
pub fn to_bytes(v: &JsonValue) -> (r: Vec<u8>)
    ensures
        r@ == ser(v.spec_val()),
{
    let mut out: Vec<u8> = Vec::new();
    write_value(v, &mut out);
    assert(out@ =~= ser(v.spec_val()));
    out
}

} // verus!
