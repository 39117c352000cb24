//! Skills: their definitions, the validation of caller-supplied arguments
//! against a skill's parameter schema, and the in-memory skill store's
//! rules. Running a skill's code is the surrounding application's work;
//! everything decided before and after that run is here.

use crate::json::JsonSpec;
use crate::json::JsonValue;
use crate::rpc::lookup;
use crate::rpc::obj_get;
use vstd::prelude::*;
use vstd::string::StrSliceExecFns;
use vstd::string::StringSliceAdditionalSpecFns;
use vstd::utf8::encode_utf8;

verus! {

broadcast use vstd::seq::group_seq_axioms, vstd::std_specs::vec::group_vec_axioms;

// ---------------------------------------------------------------------------
// Parameter types.
// ---------------------------------------------------------------------------

/// The declared type of one skill parameter.
#[derive(Clone, Copy, Debug, PartialEq, Eq, Structural)]
pub enum SkillParameterType {
    Text,
    Number,
    Boolean,
    Array,
    Object,
}

/// ASCII lowercasing of one byte.
pub open spec fn lower_byte(b: u8) -> u8 {
    if 65 <= b <= 90 {
        (b + 32) as u8
    } else {
        b
    }
}

/// ASCII lowercasing of a byte string.
pub open spec fn ascii_lower(s: Seq<u8>) -> Seq<u8> {
    Seq::new(
        s.len(),
        |i: int|
            if 0 <= i < s.len() {
                lower_byte(s[i])
            } else {
                0u8
            },
    )
}

pub open spec fn w_string() -> Seq<u8> {
    seq![115u8, 116u8, 114u8, 105u8, 110u8, 103u8]
}

pub open spec fn w_number() -> Seq<u8> {
    seq![110u8, 117u8, 109u8, 98u8, 101u8, 114u8]
}

pub open spec fn w_boolean() -> Seq<u8> {
    seq![98u8, 111u8, 111u8, 108u8, 101u8, 97u8, 110u8]
}

pub open spec fn w_array() -> Seq<u8> {
    seq![97u8, 114u8, 114u8, 97u8, 121u8]
}

pub open spec fn w_object() -> Seq<u8> {
    seq![111u8, 98u8, 106u8, 101u8, 99u8, 116u8]
}

/// The parameter type a name stands for, compared without regard to ASCII
/// case; an unknown name is the text type.
pub open spec fn param_type_of(s: Seq<u8>) -> SkillParameterType {
    if ascii_lower(s) == w_string() {
        SkillParameterType::Text
    } else if ascii_lower(s) == w_number() {
        SkillParameterType::Number
    } else if ascii_lower(s) == w_boolean() {
        SkillParameterType::Boolean
    } else if ascii_lower(s) == w_array() {
        SkillParameterType::Array
    } else if ascii_lower(s) == w_object() {
        SkillParameterType::Object
    } else {
        SkillParameterType::Text
    }
}

/// Whether the bytes, lowercased, equal the given word.
fn matches_lower(b: &[u8], w0: &Vec<u8>) -> (r: bool)
    ensures
        r == (ascii_lower(b@) == w0@),
{
    if b.len() != w0.len() {
        proof {
            assert(ascii_lower(b@).len() == b@.len());
        }
        return false;
    }
    let mut i: usize = 0;
    while i < b.len()
        invariant
            i <= b@.len(),
            b@.len() == w0@.len(),
            forall|k: int| 0 <= k < i ==> ascii_lower(b@)[k] == w0@[k],
        decreases b@.len() - i,
    {
        let c = b[i];
        let folded: u8 = if 65 <= c && c <= 90 {
            c + 32
        } else {
            c
        };
        if folded != w0[i] {
            proof {
                assert(ascii_lower(b@)[i as int] != w0@[i as int]);
            }
            return false;
        }
        i = i + 1;
    }
    proof {
        assert(ascii_lower(b@) =~= w0@);
    }
    true
}

impl SkillParameterType {
    /// Reads a parameter type from its name, without regard to ASCII
    /// case; an unknown name is the text type.
    pub fn from_str(s: &str) -> (r: SkillParameterType)
        ensures
            r == param_type_of(s.spec_bytes()),
    {
        let b = s.as_bytes();
        let mut ws: Vec<u8> = Vec::new();
        ws.push(115);
        ws.push(116);
        ws.push(114);
        ws.push(105);
        ws.push(110);
        ws.push(103);
        proof {
            assert(ws@ =~= w_string());
        }
        if matches_lower(b, &ws) {
            return SkillParameterType::Text;
        }
        let mut wn: Vec<u8> = Vec::new();
        wn.push(110);
        wn.push(117);
        wn.push(109);
        wn.push(98);
        wn.push(101);
        wn.push(114);
        proof {
            assert(wn@ =~= w_number());
        }
        if matches_lower(b, &wn) {
            return SkillParameterType::Number;
        }
        let mut wb: Vec<u8> = Vec::new();
        wb.push(98);
        wb.push(111);
        wb.push(111);
        wb.push(108);
        wb.push(101);
        wb.push(97);
        wb.push(110);
        proof {
            assert(wb@ =~= w_boolean());
        }
        if matches_lower(b, &wb) {
            return SkillParameterType::Boolean;
        }
        let mut wa: Vec<u8> = Vec::new();
        wa.push(97);
        wa.push(114);
        wa.push(114);
        wa.push(97);
        wa.push(121);
        proof {
            assert(wa@ =~= w_array());
        }
        if matches_lower(b, &wa) {
            return SkillParameterType::Array;
        }
        let mut wo: Vec<u8> = Vec::new();
        wo.push(111);
        wo.push(98);
        wo.push(106);
        wo.push(101);
        wo.push(99);
        wo.push(116);
        proof {
            assert(wo@ =~= w_object());
        }
        if matches_lower(b, &wo) {
            return SkillParameterType::Object;
        }
        SkillParameterType::Text
    }

    /// The name this parameter type serializes as.
    pub fn as_str(&self) -> (r: &'static str)
        ensures
            *self is Text ==> r@ == "string"@,
            *self is Number ==> r@ == "number"@,
            *self is Boolean ==> r@ == "boolean"@,
            *self is Array ==> r@ == "array"@,
            *self is Object ==> r@ == "object"@,
    {
        match self {
            SkillParameterType::Text => "string",
            SkillParameterType::Number => "number",
            SkillParameterType::Boolean => "boolean",
            SkillParameterType::Array => "array",
            SkillParameterType::Object => "object",
        }
    }
}

// ---------------------------------------------------------------------------
// Skills and their parameters.
// ---------------------------------------------------------------------------

/// One declared parameter of a skill.
pub struct SkillParameter {
    pub name: String,
    pub param_type: SkillParameterType,
    pub description: String,
    pub required: bool,
    pub default: Option<String>,
}

/// A stored skill: metadata, parameter schema, and the code the
/// application runs for it.
pub struct Skill {
    pub id: String,
    pub name: String,
    pub description: String,
    pub category: String,
    pub parameters: Vec<SkillParameter>,
    pub code: String,
    pub enabled: bool,
    pub created_at: u64,
    pub updated_at: u64,
}

/// The parts of a skill that identify it to callers: every field, with the
/// parameter schema as a sequence.
pub open spec fn skill_view(s: Skill) -> (
    String,
    String,
    String,
    String,
    Seq<SkillParameter>,
    String,
    bool,
    u64,
    u64,
) {
    (
        s.id,
        s.name,
        s.description,
        s.category,
        s.parameters@,
        s.code,
        s.enabled,
        s.created_at,
        s.updated_at,
    )
}

/// What one skill run produced: the run's output on success, the failure
/// text otherwise, and how long the run took.
pub struct SkillResult {
    pub success: bool,
    pub output: JsonValue,
    pub error: Option<String>,
    pub execution_time_ms: u64,
}

/// A category name together with how many enabled skills carry it.
pub struct SkillCategory {
    pub name: String,
    pub count: usize,
}

// ---------------------------------------------------------------------------
// Argument validation against a skill's parameter schema.
// ---------------------------------------------------------------------------

/// Why one argument was rejected.
#[derive(Clone, Copy, Debug, PartialEq, Eq, Structural)]
pub enum ParamFaultKind {
    /// The parameter is required and the arguments do not carry it.
    Missing,
    /// The arguments carry it with the wrong type.
    WrongType,
}

/// One rejected argument: which schema entry, and why.
pub struct ParamFault {
    pub index: usize,
    pub kind: ParamFaultKind,
}

/// Whether a value has the declared type.
pub open spec fn type_matches(t: SkillParameterType, v: JsonSpec) -> bool {
    match t {
        SkillParameterType::Text => v is Str,
        SkillParameterType::Number => v is Int || v is NumRaw,
        SkillParameterType::Boolean => v is Bool,
        SkillParameterType::Array => v is Arr,
        SkillParameterType::Object => v is Obj,
    }
}

/// The fault of one schema entry against the arguments, if any: a missing
/// required parameter, or a present parameter of the wrong type.
pub open spec fn fault_of(p: SkillParameter, args: JsonSpec) -> Option<ParamFaultKind> {
    match lookup(args, encode_utf8(p.name@)) {
        None => if p.required {
            Some(ParamFaultKind::Missing)
        } else {
            None
        },
        Some(v) => if type_matches(p.param_type, v) {
            None
        } else {
            Some(ParamFaultKind::WrongType)
        },
    }
}

/// Checks the arguments against the schema, reporting every entry that is
/// missing though required or present with the wrong type, in schema
/// order.
#[verifier::loop_isolation(false)]
#[verifier::rlimit(100)]
pub fn validate_params(schema: &Vec<SkillParameter>, args: &JsonValue) -> (r: Vec<ParamFault>)
    ensures
        forall|k: int|
            0 <= k < r@.len() ==> (#[trigger] r@[k]).index < schema@.len() && fault_of(
                schema@[r@[k].index as int],
                args.spec_val(),
            ) == Some(r@[k].kind),
        forall|i: int|
            0 <= i < schema@.len() && fault_of(#[trigger] schema@[i], args.spec_val()) is Some
                ==> exists|k: int| 0 <= k < r@.len() && (#[trigger] r@[k]).index == i,
{
    let mut out: Vec<ParamFault> = Vec::new();
    let mut i: usize = 0;
    while i < schema.len()
        invariant
            i <= schema@.len(),
            forall|k: int|
                0 <= k < out@.len() ==> (#[trigger] out@[k]).index < schema@.len() && fault_of(
                    schema@[out@[k].index as int],
                    args.spec_val(),
                ) == Some(out@[k].kind),
            forall|t: int|
                0 <= t < i && fault_of(#[trigger] schema@[t], args.spec_val()) is Some
                    ==> exists|k: int| 0 <= k < out@.len() && (#[trigger] out@[k]).index == t,
        decreases schema@.len() - i,
    {
        let p = &schema[i];
        let ghost gfault = fault_of(schema@[i as int], args.spec_val());
        let name_bytes = p.name.as_str().as_bytes_vec();
        proof {
            assert(name_bytes@ == encode_utf8(p.name@));
        }
        let found = obj_get(args, &name_bytes);
        let ghost oldout = out@;
        match found {
            None => {
                proof {
                    assert(gfault == (if p.required {
                        Some(ParamFaultKind::Missing)
                    } else {
                        None::<ParamFaultKind>
                    }));
                }
                if p.required {
                    out.push(ParamFault { index: i, kind: ParamFaultKind::Missing });
                }
            },
            Some(v) => {
                let ok = match (&p.param_type, &v) {
                    (SkillParameterType::Text, JsonValue::Str(_)) => true,
                    (SkillParameterType::Number, JsonValue::Int(_)) => true,
                    (SkillParameterType::Number, JsonValue::NumRaw(_)) => true,
                    (SkillParameterType::Boolean, JsonValue::Bool(_)) => true,
                    (SkillParameterType::Array, JsonValue::Array(_)) => true,
                    (SkillParameterType::Object, JsonValue::Object(_)) => true,
                    _ => false,
                };
                proof {
                    assert(ok == type_matches(p.param_type, v.spec_val()));
                    assert(gfault == (if ok {
                        None::<ParamFaultKind>
                    } else {
                        Some(ParamFaultKind::WrongType)
                    }));
                }
                if !ok {
                    out.push(ParamFault { index: i, kind: ParamFaultKind::WrongType });
                }
            },
        }
        proof {
            if out@.len() > oldout.len() {
                assert(out@[out@.len() - 1].index == i);
                assert(out@.drop_last() =~= oldout);
            } else {
                assert(out@ =~= oldout);
                assert(gfault is None);
            }
            assert forall|t: int|
                0 <= t < i + 1 && fault_of(#[trigger] schema@[t], args.spec_val()) is Some implies exists|k: int|
                0 <= k < out@.len() && (#[trigger] out@[k]).index == t by {
                if t < i {
                    let k0 = choose|k: int| 0 <= k < oldout.len() && (#[trigger] oldout[k]).index == t;
                    assert(out@[k0].index == t);
                } else {
                    assert(out@[out@.len() - 1].index == i);
                }
            }
        }
        i = i + 1;
    }
    out
}

} // verus!
