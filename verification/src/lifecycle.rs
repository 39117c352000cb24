//! The lifecycle manager's decision logic: the fixed method names the
//! client itself calls, the parsing of a capability-discovery reply into a
//! tool catalog, the status values handed to callers, and the fixed order
//! of the stop sequence. The surrounding application performs the process
//! spawning, sleeping and pipe I/O these decisions call for.

use crate::json::JsonSpec;
use crate::json::JsonValue;
use crate::json::members_of;
use crate::rpc::lookup;
use crate::rpc::obj_get;
use vstd::prelude::*;

verus! {

broadcast use vstd::seq::group_seq_axioms, vstd::std_specs::vec::group_vec_axioms;

// ---------------------------------------------------------------------------
// The fixed method names.
// ---------------------------------------------------------------------------

pub open spec fn m_ping() -> Seq<u8> {
    seq![112u8, 105u8, 110u8, 103u8]
}

pub open spec fn m_terminate() -> Seq<u8> {
    seq![116u8, 101u8, 114u8, 109u8, 105u8, 110u8, 97u8, 116u8, 101u8]
}

pub open spec fn m_tools_list() -> Seq<u8> {
    seq![116u8, 111u8, 111u8, 108u8, 115u8, 47u8, 108u8, 105u8, 115u8, 116u8]
}

pub open spec fn m_tools_call() -> Seq<u8> {
    seq![116u8, 111u8, 111u8, 108u8, 115u8, 47u8, 99u8, 97u8, 108u8, 108u8]
}

pub open spec fn m_resources_list() -> Seq<u8> {
    seq![114u8, 101u8, 115u8, 111u8, 117u8, 114u8, 99u8, 101u8, 115u8, 47u8, 108u8, 105u8, 115u8, 116u8]
}

pub open spec fn m_resources_read() -> Seq<u8> {
    seq![114u8, 101u8, 115u8, 111u8, 117u8, 114u8, 99u8, 101u8, 115u8, 47u8, 114u8, 101u8, 97u8, 100u8]
}

pub open spec fn m_prompts_list() -> Seq<u8> {
    seq![112u8, 114u8, 111u8, 109u8, 112u8, 116u8, 115u8, 47u8, 108u8, 105u8, 115u8, 116u8]
}

pub open spec fn m_prompts_get() -> Seq<u8> {
    seq![112u8, 114u8, 111u8, 109u8, 112u8, 116u8, 115u8, 47u8, 103u8, 101u8, 116u8]
}

pub fn method_ping() -> (r: Vec<u8>)
    ensures
        r@ == m_ping(),
{
    let mut k: Vec<u8> = Vec::new();
    k.push(112);
    k.push(105);
    k.push(110);
    k.push(103);
    proof {
        assert(k@ =~= m_ping());
    }
    k
}

pub fn method_terminate() -> (r: Vec<u8>)
    ensures
        r@ == m_terminate(),
{
    let mut k: Vec<u8> = Vec::new();
    k.push(116);
    k.push(101);
    k.push(114);
    k.push(109);
    k.push(105);
    k.push(110);
    k.push(97);
    k.push(116);
    k.push(101);
    proof {
        assert(k@ =~= m_terminate());
    }
    k
}

pub fn method_tools_list() -> (r: Vec<u8>)
    ensures
        r@ == m_tools_list(),
{
    let mut k: Vec<u8> = Vec::new();
    k.push(116);
    k.push(111);
    k.push(111);
    k.push(108);
    k.push(115);
    k.push(47);
    k.push(108);
    k.push(105);
    k.push(115);
    k.push(116);
    proof {
        assert(k@ =~= m_tools_list());
    }
    k
}

pub fn method_tools_call() -> (r: Vec<u8>)
    ensures
        r@ == m_tools_call(),
{
    let mut k: Vec<u8> = Vec::new();
    k.push(116);
    k.push(111);
    k.push(111);
    k.push(108);
    k.push(115);
    k.push(47);
    k.push(99);
    k.push(97);
    k.push(108);
    k.push(108);
    proof {
        assert(k@ =~= m_tools_call());
    }
    k
}

pub fn method_resources_list() -> (r: Vec<u8>)
    ensures
        r@ == m_resources_list(),
{
    let mut k: Vec<u8> = Vec::new();
    k.push(114);
    k.push(101);
    k.push(115);
    k.push(111);
    k.push(117);
    k.push(114);
    k.push(99);
    k.push(101);
    k.push(115);
    k.push(47);
    k.push(108);
    k.push(105);
    k.push(115);
    k.push(116);
    proof {
        assert(k@ =~= m_resources_list());
    }
    k
}

pub fn method_resources_read() -> (r: Vec<u8>)
    ensures
        r@ == m_resources_read(),
{
    let mut k: Vec<u8> = Vec::new();
    k.push(114);
    k.push(101);
    k.push(115);
    k.push(111);
    k.push(117);
    k.push(114);
    k.push(99);
    k.push(101);
    k.push(115);
    k.push(47);
    k.push(114);
    k.push(101);
    k.push(97);
    k.push(100);
    proof {
        assert(k@ =~= m_resources_read());
    }
    k
}

pub fn method_prompts_list() -> (r: Vec<u8>)
    ensures
        r@ == m_prompts_list(),
{
    let mut k: Vec<u8> = Vec::new();
    k.push(112);
    k.push(114);
    k.push(111);
    k.push(109);
    k.push(112);
    k.push(116);
    k.push(115);
    k.push(47);
    k.push(108);
    k.push(105);
    k.push(115);
    k.push(116);
    proof {
        assert(k@ =~= m_prompts_list());
    }
    k
}

pub fn method_prompts_get() -> (r: Vec<u8>)
    ensures
        r@ == m_prompts_get(),
{
    let mut k: Vec<u8> = Vec::new();
    k.push(112);
    k.push(114);
    k.push(111);
    k.push(109);
    k.push(112);
    k.push(116);
    k.push(115);
    k.push(47);
    k.push(103);
    k.push(101);
    k.push(116);
    proof {
        assert(k@ =~= m_prompts_get());
    }
    k
}

// ---------------------------------------------------------------------------
// Parameter payloads for the fixed methods.
// ---------------------------------------------------------------------------

pub open spec fn key_name() -> Seq<u8> {
    seq![110u8, 97u8, 109u8, 101u8]
}

pub open spec fn key_arguments() -> Seq<u8> {
    seq![97u8, 114u8, 103u8, 117u8, 109u8, 101u8, 110u8, 116u8, 115u8]
}

pub open spec fn key_uri() -> Seq<u8> {
    seq![117u8, 114u8, 105u8]
}

fn key_bytes_name() -> (r: Vec<u8>)
    ensures
        r@ == key_name(),
{
    let mut k: Vec<u8> = Vec::new();
    k.push(110);
    k.push(97);
    k.push(109);
    k.push(101);
    proof {
        assert(k@ =~= key_name());
    }
    k
}

fn key_bytes_arguments() -> (r: Vec<u8>)
    ensures
        r@ == key_arguments(),
{
    let mut k: Vec<u8> = Vec::new();
    k.push(97);
    k.push(114);
    k.push(103);
    k.push(117);
    k.push(109);
    k.push(101);
    k.push(110);
    k.push(116);
    k.push(115);
    proof {
        assert(k@ =~= key_arguments());
    }
    k
}

fn key_bytes_uri() -> (r: Vec<u8>)
    ensures
        r@ == key_uri(),
{
    let mut k: Vec<u8> = Vec::new();
    k.push(117);
    k.push(114);
    k.push(105);
    proof {
        assert(k@ =~= key_uri());
    }
    k
}

/// An empty object payload, for the parameterless methods.
pub fn empty_params() -> (r: JsonValue)
    ensures
        r.spec_val() == JsonSpec::Obj(Seq::empty()),
{
    let members: Vec<(Vec<u8>, JsonValue)> = Vec::new();
    let r = JsonValue::Object(members);
    proof {
        assert(r.spec_val()->Obj_0 =~= Seq::<(Seq<u8>, JsonSpec)>::empty());
    }
    r
}

/// The payload of a tool invocation: the tool's name and its arguments.
pub fn tool_call_params(name: Vec<u8>, arguments: JsonValue) -> (r: JsonValue)
    ensures
        r.spec_val() == JsonSpec::Obj(
            seq![
                (key_name(), JsonSpec::Str(name@)),
                (key_arguments(), arguments.spec_val()),
            ],
        ),
{
    let mut members: Vec<(Vec<u8>, JsonValue)> = Vec::new();
    let kn = key_bytes_name();
    let ka = key_bytes_arguments();
    let ghost ga = arguments.spec_val();
    members.push((kn, JsonValue::Str(name)));
    members.push((ka, arguments));
    let r = JsonValue::Object(members);
    proof {
        assert(members@.len() == 2);
        assert(members@[0].0@ == key_name());
        assert(members@[0].1.spec_val() == JsonSpec::Str(name@));
        assert(members@[1].0@ == key_arguments());
        assert(members@[1].1.spec_val() == ga);
        assert(members_of(members@) =~= seq![
            (key_name(), JsonSpec::Str(name@)),
            (key_arguments(), ga),
        ]);
    }
    r
}

/// The payload of a resource read: the resource's identifier.
pub fn resource_read_params(uri: Vec<u8>) -> (r: JsonValue)
    ensures
        r.spec_val() == JsonSpec::Obj(seq![(key_uri(), JsonSpec::Str(uri@))]),
{
    let mut members: Vec<(Vec<u8>, JsonValue)> = Vec::new();
    let ku = key_bytes_uri();
    members.push((ku, JsonValue::Str(uri)));
    let r = JsonValue::Object(members);
    proof {
        assert(members@.len() == 1);
        assert(members@[0].0@ == key_uri());
        assert(members@[0].1.spec_val() == JsonSpec::Str(uri@));
        assert(members_of(members@) =~= seq![(key_uri(), JsonSpec::Str(uri@))]);
    }
    r
}

/// The payload of a prompt request: the prompt's name, and its arguments
/// only where the caller supplied some.
pub fn prompt_get_params(name: Vec<u8>, arguments: Option<JsonValue>) -> (r: JsonValue)
    ensures
        arguments is Some ==> r.spec_val() == JsonSpec::Obj(
            seq![
                (key_name(), JsonSpec::Str(name@)),
                (key_arguments(), arguments->Some_0.spec_val()),
            ],
        ),
        arguments is None ==> r.spec_val() == JsonSpec::Obj(
            seq![(key_name(), JsonSpec::Str(name@))],
        ),
{
    let mut members: Vec<(Vec<u8>, JsonValue)> = Vec::new();
    let kn = key_bytes_name();
    members.push((kn, JsonValue::Str(name)));
    match arguments {
        Some(a) => {
            let ka = key_bytes_arguments();
            let ghost ga = a.spec_val();
            members.push((ka, a));
            let r = JsonValue::Object(members);
            proof {
                assert(members@.len() == 2);
                assert(members@[0].0@ == key_name());
                assert(members@[0].1.spec_val() == JsonSpec::Str(name@));
                assert(members@[1].0@ == key_arguments());
                assert(members@[1].1.spec_val() == ga);
                assert(members_of(members@) =~= seq![
                    (key_name(), JsonSpec::Str(name@)),
                    (key_arguments(), ga),
                ]);
            }
            r
        },
        None => {
            let r = JsonValue::Object(members);
            proof {
                assert(members@.len() == 1);
                assert(members@[0].0@ == key_name());
                assert(members@[0].1.spec_val() == JsonSpec::Str(name@));
                assert(members_of(members@) =~= seq![(key_name(), JsonSpec::Str(name@))]);
            }
            r
        },
    }
}

// ---------------------------------------------------------------------------
// The tool catalog.
// ---------------------------------------------------------------------------

pub open spec fn key_description() -> Seq<u8> {
    seq![100u8, 101u8, 115u8, 99u8, 114u8, 105u8, 112u8, 116u8, 105u8, 111u8, 110u8]
}

pub open spec fn key_input_schema() -> Seq<u8> {
    seq![105u8, 110u8, 112u8, 117u8, 116u8, 83u8, 99u8, 104u8, 101u8, 109u8, 97u8]
}

pub open spec fn key_tools() -> Seq<u8> {
    seq![116u8, 111u8, 111u8, 108u8, 115u8]
}

/// One entry of a server's tool catalog, as discovered.
#[derive(Debug, PartialEq, Eq)]
pub struct McpToolDefinition {
    pub name: Vec<u8>,
    pub description: Vec<u8>,
    pub input_schema: JsonValue,
}

impl McpToolDefinition {
    /// The model of this entry.
    pub open spec fn spec_tool(self) -> (Seq<u8>, Seq<u8>, JsonSpec) {
        (self.name@, self.description@, self.input_schema.spec_val())
    }
}

/// What one catalog entry means: its `name` and `description` strings,
/// empty where missing or not a string, and its `inputSchema`, an empty
/// object where missing.
pub open spec fn tool_of(t: JsonSpec) -> (Seq<u8>, Seq<u8>, JsonSpec) {
    (
        match lookup(t, key_name()) {
            Some(JsonSpec::Str(n)) => n,
            _ => Seq::empty(),
        },
        match lookup(t, key_description()) {
            Some(JsonSpec::Str(d)) => d,
            _ => Seq::empty(),
        },
        match lookup(t, key_input_schema()) {
            Some(s) => s,
            _ => JsonSpec::Obj(Seq::empty()),
        },
    )
}

/// The catalog carried by a discovery reply's result: the entries of its
/// `tools` array, or nothing where that is missing or not an array.
pub open spec fn tools_of(result: JsonSpec) -> Seq<(Seq<u8>, Seq<u8>, JsonSpec)> {
    match lookup(result, key_tools()) {
        Some(JsonSpec::Arr(a)) => Seq::new(
            a.len(),
            |i: int|
                if 0 <= i < a.len() {
                    tool_of(a[i])
                } else {
                    (Seq::empty(), Seq::empty(), JsonSpec::Null)
                },
        ),
        _ => Seq::empty(),
    }
}

/// Reads the tool catalog out of a discovery reply's result.
#[verifier::loop_isolation(false)]
#[verifier::rlimit(80)]
pub fn parse_tool_list(result: &JsonValue) -> (r: Vec<McpToolDefinition>)
    ensures
        r@.len() == tools_of(result.spec_val()).len(),
        forall|i: int|
            0 <= i < r@.len() ==> (#[trigger] r@[i]).spec_tool() == tools_of(result.spec_val())[i],
{
    let mut out: Vec<McpToolDefinition> = Vec::new();
    let mut key_tools_b: Vec<u8> = Vec::new();
    key_tools_b.push(116);
    key_tools_b.push(111);
    key_tools_b.push(111);
    key_tools_b.push(108);
    key_tools_b.push(115);
    proof {
        assert(key_tools_b@ =~= key_tools());
    }
    let arr = match obj_get(result, &key_tools_b) {
        Some(t) => t,
        None => {
            return out;
        },
    };
    let items = match arr {
        JsonValue::Array(items) => items,
        _ => {
            return out;
        },
    };
    let ghost spec_tools = tools_of(result.spec_val());
    proof {
        assert(spec_tools.len() == crate::json::vals_of(items@).len());
    }
    let mut i: usize = 0;
    while i < items.len()
        invariant
            i <= items@.len(),
            out@.len() == i,
            spec_tools == tools_of(result.spec_val()),
            spec_tools.len() == items@.len(),
            forall|k: int| 0 <= k < i ==> (#[trigger] out@[k]).spec_tool() == spec_tools[k],
            forall|k: int|
                0 <= k < items@.len() ==> #[trigger] spec_tools[k] == tool_of(
                    items@[k].spec_val(),
                ),
        decreases items@.len() - i,
    {
        let t = &items[i];
        let name = match obj_get(t, &key_bytes_name()) {
            Some(JsonValue::Str(n)) => n,
            Some(_) => Vec::new(),
            None => Vec::new(),
        };
        let description = match obj_get(t, &key_bytes_description()) {
            Some(JsonValue::Str(d)) => d,
            Some(_) => Vec::new(),
            None => Vec::new(),
        };
        let input_schema = match obj_get(t, &key_bytes_input_schema()) {
            Some(s) => s,
            None => empty_params(),
        };
        let tool = McpToolDefinition { name, description, input_schema };
        proof {
            assert(tool.spec_tool() == tool_of(items@[i as int].spec_val()));
        }
        out.push(tool);
        i = i + 1;
    }
    out
}

fn key_bytes_description() -> (r: Vec<u8>)
    ensures
        r@ == key_description(),
{
    let mut k: Vec<u8> = Vec::new();
    k.push(100);
    k.push(101);
    k.push(115);
    k.push(99);
    k.push(114);
    k.push(105);
    k.push(112);
    k.push(116);
    k.push(105);
    k.push(111);
    k.push(110);
    proof {
        assert(k@ =~= key_description());
    }
    k
}

fn key_bytes_input_schema() -> (r: Vec<u8>)
    ensures
        r@ == key_input_schema(),
{
    let mut k: Vec<u8> = Vec::new();
    k.push(105);
    k.push(110);
    k.push(112);
    k.push(117);
    k.push(116);
    k.push(83);
    k.push(99);
    k.push(104);
    k.push(101);
    k.push(109);
    k.push(97);
    proof {
        assert(k@ =~= key_input_schema());
    }
    k
}

// ---------------------------------------------------------------------------
// Status values and the stop sequence.
// ---------------------------------------------------------------------------

/// What a start or status query hands back to the caller.
pub struct McpServerStatus {
    pub server_id: String,
    pub running: bool,
    pub tools: Vec<McpToolDefinition>,
    pub error: Option<String>,
}

/// The status after a start that found the server already running: a
/// benign no-op, reported as running with no fresh catalog.
pub fn already_running_status(server_id: String) -> (r: McpServerStatus)
    ensures
        r.server_id == server_id,
        r.running,
        r.tools@.len() == 0,
        r.error is None,
{
    McpServerStatus { server_id, running: true, tools: Vec::new(), error: None }
}

/// The status after a completed start: running, with whatever catalog the
/// discovery call produced. A failed discovery leaves the server running
/// and the catalog empty; it never rolls the start back.
pub fn started_status(server_id: String, tools: Vec<McpToolDefinition>) -> (r: McpServerStatus)
    ensures
        r.server_id == server_id,
        r.running,
        r.tools == tools,
        r.error is None,
{
    McpServerStatus { server_id, running: true, tools, error: None }
}

/// A server's advisory state, for status queries.
pub enum McpServerStatusInfo {
    /// Registered and answering discovery.
    Running { server_id: String, tools: JsonValue },
    /// No running entry.
    Stopped { server_id: String },
    /// Registered, but the last discovery failed; still callable.
    Error { server_id: String, error: String },
}

/// Folds a registry lookup and a discovery outcome into the advisory
/// state: not registered is stopped; registered with a failed discovery is
/// the advisory error, never an unregistration.
pub fn status_info_from(server_id: String, discovery: Option<Result<JsonValue, String>>) -> (r:
    McpServerStatusInfo)
    ensures
        discovery is None ==> r == (McpServerStatusInfo::Stopped { server_id }),
        discovery matches Some(Ok(t)) ==> r == (McpServerStatusInfo::Running {
            server_id,
            tools: t,
        }),
        discovery matches Some(Err(e)) ==> r == (McpServerStatusInfo::Error {
            server_id,
            error: e,
        }),
{
    match discovery {
        None => McpServerStatusInfo::Stopped { server_id },
        Some(Ok(tools)) => McpServerStatusInfo::Running { server_id, tools },
        Some(Err(error)) => McpServerStatusInfo::Error { server_id, error },
    }
}

/// Usage counters over the configured and running servers.
pub struct McpStats {
    pub total_servers: usize,
    pub running_servers: usize,
    pub total_tools: usize,
    pub total_resources: usize,
    pub total_prompts: usize,
}

/// One step of the stop sequence, in the order the sequence performs them.
#[derive(Clone, Copy, Debug, PartialEq, Eq, Structural)]
pub enum StopAction {
    /// Take the entry out of the registry, so no new call reaches it.
    RemoveEntry,
    /// Ask the subprocess to terminate; its failure is ignored.
    SendTerminate,
    /// Give the subprocess a moment to wind down.
    PauseBriefly,
    /// Kill the operating-system process if it is still there.
    KillProcess,
    /// Wait on the process so no zombie remains.
    ReapProcess,
}

/// The fixed stop sequence: removal first, then the best-effort graceful
/// terminate, then the forced kill and the reap. The kill and the reap
/// follow whatever the graceful attempt did, so the process is always
/// reaped.
pub fn stop_plan() -> (r: Vec<StopAction>)
    ensures
        r@ == seq![
            StopAction::RemoveEntry,
            StopAction::SendTerminate,
            StopAction::PauseBriefly,
            StopAction::KillProcess,
            StopAction::ReapProcess,
        ],
{
    let mut r: Vec<StopAction> = Vec::new();
    r.push(StopAction::RemoveEntry);
    r.push(StopAction::SendTerminate);
    r.push(StopAction::PauseBriefly);
    r.push(StopAction::KillProcess);
    r.push(StopAction::ReapProcess);
    proof {
        assert(r@ =~= seq![
            StopAction::RemoveEntry,
            StopAction::SendTerminate,
            StopAction::PauseBriefly,
            StopAction::KillProcess,
            StopAction::ReapProcess,
        ]);
    }
    r
}

/// How many entries the named array member of a listing reply holds: the
/// array's length, or nothing where the member is missing or not an array.
pub open spec fn listed_count_spec(result: JsonSpec, key: Seq<u8>) -> int {
    match lookup(result, key) {
        Some(JsonSpec::Arr(a)) => a.len() as int,
        _ => 0,
    }
}

/// Counts the entries of the named array member of a listing reply.
pub fn listed_count(result: &JsonValue, key: &Vec<u8>) -> (r: usize)
    ensures
        r == listed_count_spec(result.spec_val(), key@),
{
    match obj_get(result, key) {
        Some(JsonValue::Array(items)) => items.len(),
        Some(_) => 0,
        None => 0,
    }
}

} // verus!
