//! The in-memory configuration stores: server configurations, providers,
//! and the skill list, with the rules their edits follow. Identifier
//! generation and timestamps are the surrounding application's inputs;
//! every rule about what an edit does to the stored data is here.

use crate::skills::Skill;
use crate::skills::SkillCategory;
use crate::skills::SkillParameter;
use std::collections::HashMap;
use vstd::string::StrSliceExecFns;
use vstd::string::StringSliceAdditionalSpecFns;
use vstd::prelude::*;

verus! {

broadcast use vstd::seq::group_seq_axioms, vstd::std_specs::vec::group_vec_axioms;

// ---------------------------------------------------------------------------
// Server configurations.
// ---------------------------------------------------------------------------

/// The stored configuration of one server: identifier, transport kind,
/// launch command, arguments, and environment overrides.
pub struct McpServer {
    pub id: String,
    pub server_type: String,
    pub command: String,
    pub args: Vec<String>,
    pub env: HashMap<String, String>,
}

/// Whether a configuration can be launched at all: its command is not
/// empty. An empty command is a configuration error, reported before any
/// spawn is attempted.
pub fn config_valid(config: &McpServer) -> (r: bool)
    ensures
        r == (config.command@.len() != 0),
{
    !config.command.as_str().is_empty()
}

/// Position of the configuration with the given identifier.
pub fn find_server(servers: &Vec<McpServer>, id: &String) -> (r: Option<usize>)
    ensures
        r is Some ==> r->Some_0 < servers@.len() && servers@[r->Some_0 as int].id@ == id@,
        r is None ==> forall|k: int| 0 <= k < servers@.len() ==> (#[trigger] servers@[k]).id@ != id@,
{
    let mut i: usize = 0;
    while i < servers.len()
        invariant
            i <= servers@.len(),
            forall|k: int| 0 <= k < i ==> (#[trigger] servers@[k]).id@ != id@,
        decreases servers@.len() - i,
    {
        if servers[i].id == *id {
            return Some(i);
        }
        i = i + 1;
    }
    None
}

/// Appends a new server configuration.
pub fn add_server(servers: &mut Vec<McpServer>, server: McpServer)
    ensures
        final(servers)@ == old(servers)@.push(server),
{
    servers.push(server);
}

/// Updates the configuration with the given identifier: each supplied
/// field replaces the stored one, the rest stay; reports whether any
/// configuration carried the identifier. Nothing else changes.
#[verifier::loop_isolation(false)]
pub fn update_server(
    servers: &mut Vec<McpServer>,
    id: &String,
    command: Option<String>,
    args: Option<Vec<String>>,
    env: Option<HashMap<String, String>>,
) -> (r: Option<usize>)
    ensures
        r is None ==> final(servers)@ == old(servers)@ && (forall|k: int|
            0 <= k < old(servers)@.len() ==> (#[trigger] old(servers)@[k]).id@ != id@),
        r is Some ==> {
            let i = r->Some_0 as int;
            &&& 0 <= i < old(servers)@.len()
            &&& old(servers)@[i].id@ == id@
            &&& final(servers)@.len() == old(servers)@.len()
            &&& (forall|k: int|
                0 <= k < old(servers)@.len() && k != i ==> final(servers)@[k] == old(
                    servers,
                )@[k])
            &&& final(servers)@[i].id == old(servers)@[i].id
            &&& final(servers)@[i].server_type == old(servers)@[i].server_type
            &&& final(servers)@[i].command == (if command is Some {
                command->Some_0
            } else {
                old(servers)@[i].command
            })
            &&& final(servers)@[i].args == (if args is Some {
                args->Some_0
            } else {
                old(servers)@[i].args
            })
            &&& final(servers)@[i].env == (if env is Some {
                env->Some_0
            } else {
                old(servers)@[i].env
            })
        },
{
    let found = find_server(servers, id);
    match found {
        None => None,
        Some(i) => {
            let entry = servers.remove(i);
            let updated = McpServer {
                id: entry.id,
                server_type: entry.server_type,
                command: match command {
                    Some(c) => c,
                    None => entry.command,
                },
                args: match args {
                    Some(a) => a,
                    None => entry.args,
                },
                env: match env {
                    Some(e) => e,
                    None => entry.env,
                },
            };
            servers.insert(i, updated);
            proof {
                assert(final(servers)@.len() == old(servers)@.len());
                assert forall|k: int|
                    0 <= k < old(servers)@.len() && k != i implies final(servers)@[k] == old(
                    servers,
                )@[k] by {
                    if k < i {
                        assert(old(servers)@.remove(i as int)[k] == old(servers)@[k]);
                    } else {
                        assert(old(servers)@.remove(i as int)[k - 1] == old(servers)@[k]);
                    }
                }
            }
            Some(i)
        },
    }
}

/// The configurations that do not carry the identifier, in their order.
pub open spec fn without_id(s: Seq<McpServer>, id: Seq<char>) -> Seq<McpServer>
    decreases s.len(),
{
    if s.len() == 0 {
        Seq::empty()
    } else if s.last().id@ == id {
        without_id(s.drop_last(), id)
    } else {
        without_id(s.drop_last(), id).push(s.last())
    }
}

/// Deletes every configuration with the given identifier; reports whether
/// any was there. The caller must first make sure no running instance
/// remains under the identifier.
#[verifier::loop_isolation(false)]
pub fn delete_server(servers: &mut Vec<McpServer>, id: &String) -> (r: bool)
    ensures
        final(servers)@ == without_id(old(servers)@, id@),
        r == (final(servers)@.len() < old(servers)@.len()),
{
    let mut kept: Vec<McpServer> = Vec::new();
    let ghost orig = servers@;
    proof {
        assert(orig.take(0) =~= Seq::<McpServer>::empty());
    }
    let mut i: usize = 0;
    let total = servers.len();
    while i < total
        invariant
            i <= orig.len(),
            total == orig.len(),
            servers@.len() == orig.len() - i,
            forall|k: int| 0 <= k < servers@.len() ==> servers@[k] == orig[i + k],
            kept@ == without_id(orig.take(i as int), id@),
        decreases orig.len() - i,
    {
        let entry = servers.remove(0);
        proof {
            assert(entry == orig[i as int]);
            assert(orig.take(i + 1).drop_last() =~= orig.take(i as int));
            assert(orig.take(i + 1).last() == orig[i as int]);
        }
        if entry.id == *id {
            // dropped
        } else {
            kept.push(entry);
        }
        i = i + 1;
    }
    proof {
        assert(orig.take(orig.len() as int) =~= orig);
    }
    let r = kept.len() < total;
    *servers = kept;
    r
}

// ---------------------------------------------------------------------------
// Providers.
// ---------------------------------------------------------------------------

/// One configured model provider.
pub struct LLMProvider {
    pub id: String,
    pub name: String,
    pub provider_type: String,
    pub base_url: String,
    pub api_key: String,
    pub enabled: bool,
}

/// Position of the provider with the given identifier.
pub fn find_provider(providers: &Vec<LLMProvider>, id: &String) -> (r: Option<usize>)
    ensures
        r is Some ==> r->Some_0 < providers@.len() && providers@[r->Some_0 as int].id@ == id@,
        r is None ==> forall|k: int|
            0 <= k < providers@.len() ==> (#[trigger] providers@[k]).id@ != id@,
{
    let mut i: usize = 0;
    while i < providers.len()
        invariant
            i <= providers@.len(),
            forall|k: int| 0 <= k < i ==> (#[trigger] providers@[k]).id@ != id@,
        decreases providers@.len() - i,
    {
        if providers[i].id == *id {
            return Some(i);
        }
        i = i + 1;
    }
    None
}

/// Appends a new provider.
pub fn add_provider(providers: &mut Vec<LLMProvider>, provider: LLMProvider)
    ensures
        final(providers)@ == old(providers)@.push(provider),
{
    providers.push(provider);
}

/// Updates the provider with the given identifier: each supplied field
/// replaces the stored one, the rest stay. Nothing else changes.
#[verifier::loop_isolation(false)]
pub fn update_provider(
    providers: &mut Vec<LLMProvider>,
    id: &String,
    name: Option<String>,
    base_url: Option<String>,
    api_key: Option<String>,
    enabled: Option<bool>,
) -> (r: Option<usize>)
    ensures
        r is None ==> final(providers)@ == old(providers)@ && (forall|k: int|
            0 <= k < old(providers)@.len() ==> (#[trigger] old(providers)@[k]).id@ != id@),
        r is Some ==> {
            let i = r->Some_0 as int;
            &&& 0 <= i < old(providers)@.len()
            &&& old(providers)@[i].id@ == id@
            &&& final(providers)@.len() == old(providers)@.len()
            &&& (forall|k: int|
                0 <= k < old(providers)@.len() && k != i ==> final(providers)@[k] == old(
                    providers,
                )@[k])
            &&& final(providers)@[i].id == old(providers)@[i].id
            &&& final(providers)@[i].provider_type == old(providers)@[i].provider_type
            &&& final(providers)@[i].name == (if name is Some {
                name->Some_0
            } else {
                old(providers)@[i].name
            })
            &&& final(providers)@[i].base_url == (if base_url is Some {
                base_url->Some_0
            } else {
                old(providers)@[i].base_url
            })
            &&& final(providers)@[i].api_key == (if api_key is Some {
                api_key->Some_0
            } else {
                old(providers)@[i].api_key
            })
            &&& final(providers)@[i].enabled == (if enabled is Some {
                enabled->Some_0
            } else {
                old(providers)@[i].enabled
            })
        },
{
    let found = find_provider(providers, id);
    match found {
        None => None,
        Some(i) => {
            let entry = providers.remove(i);
            let updated = LLMProvider {
                id: entry.id,
                name: match name {
                    Some(n) => n,
                    None => entry.name,
                },
                provider_type: entry.provider_type,
                base_url: match base_url {
                    Some(u) => u,
                    None => entry.base_url,
                },
                api_key: match api_key {
                    Some(k) => k,
                    None => entry.api_key,
                },
                enabled: match enabled {
                    Some(e) => e,
                    None => entry.enabled,
                },
            };
            providers.insert(i, updated);
            proof {
                assert forall|k: int|
                    0 <= k < old(providers)@.len() && k != i implies final(providers)@[k] == old(
                    providers,
                )@[k] by {
                    if k < i {
                        assert(old(providers)@.remove(i as int)[k] == old(providers)@[k]);
                    } else {
                        assert(old(providers)@.remove(i as int)[k - 1] == old(providers)@[k]);
                    }
                }
            }
            Some(i)
        },
    }
}

/// The providers that do not carry the identifier, in their order.
pub open spec fn providers_without_id(s: Seq<LLMProvider>, id: Seq<char>) -> Seq<LLMProvider>
    decreases s.len(),
{
    if s.len() == 0 {
        Seq::empty()
    } else if s.last().id@ == id {
        providers_without_id(s.drop_last(), id)
    } else {
        providers_without_id(s.drop_last(), id).push(s.last())
    }
}

/// Deletes every provider with the given identifier; reports whether any
/// was there. The caller also removes the models that referenced it.
#[verifier::loop_isolation(false)]
pub fn delete_provider(providers: &mut Vec<LLMProvider>, id: &String) -> (r: bool)
    ensures
        final(providers)@ == providers_without_id(old(providers)@, id@),
        r == (final(providers)@.len() < old(providers)@.len()),
{
    let mut kept: Vec<LLMProvider> = Vec::new();
    let ghost orig = providers@;
    proof {
        assert(orig.take(0) =~= Seq::<LLMProvider>::empty());
    }
    let mut i: usize = 0;
    let total = providers.len();
    while i < total
        invariant
            i <= orig.len(),
            total == orig.len(),
            providers@.len() == orig.len() - i,
            forall|k: int| 0 <= k < providers@.len() ==> providers@[k] == orig[i + k],
            kept@ == providers_without_id(orig.take(i as int), id@),
        decreases orig.len() - i,
    {
        let entry = providers.remove(0);
        proof {
            assert(entry == orig[i as int]);
            assert(orig.take(i + 1).drop_last() =~= orig.take(i as int));
            assert(orig.take(i + 1).last() == orig[i as int]);
        }
        if entry.id == *id {
            // dropped
        } else {
            kept.push(entry);
        }
        i = i + 1;
    }
    proof {
        assert(orig.take(orig.len() as int) =~= orig);
    }
    let r = kept.len() < total;
    *providers = kept;
    r
}

// ---------------------------------------------------------------------------
// The skill store.
// ---------------------------------------------------------------------------

/// Position of the skill with the given identifier.
pub fn find_skill(skills: &Vec<Skill>, id: &String) -> (r: Option<usize>)
    ensures
        r is Some ==> r->Some_0 < skills@.len() && skills@[r->Some_0 as int].id@ == id@,
        r is None ==> forall|k: int| 0 <= k < skills@.len() ==> (#[trigger] skills@[k]).id@ != id@,
{
    let mut i: usize = 0;
    while i < skills.len()
        invariant
            i <= skills@.len(),
            forall|k: int| 0 <= k < i ==> (#[trigger] skills@[k]).id@ != id@,
        decreases skills@.len() - i,
    {
        if skills[i].id == *id {
            return Some(i);
        }
        i = i + 1;
    }
    None
}

/// Appends a new skill.
pub fn add_skill(skills: &mut Vec<Skill>, skill: Skill)
    ensures
        final(skills)@ == old(skills)@.push(skill),
{
    skills.push(skill);
}

/// The skills that do not carry the identifier, in their order.
pub open spec fn skills_without_id(s: Seq<Skill>, id: Seq<char>) -> Seq<Skill>
    decreases s.len(),
{
    if s.len() == 0 {
        Seq::empty()
    } else if s.last().id@ == id {
        skills_without_id(s.drop_last(), id)
    } else {
        skills_without_id(s.drop_last(), id).push(s.last())
    }
}

/// Deletes every skill with the given identifier; reports whether any was
/// there.
#[verifier::loop_isolation(false)]
pub fn delete_skill(skills: &mut Vec<Skill>, id: &String) -> (r: bool)
    ensures
        final(skills)@ == skills_without_id(old(skills)@, id@),
        r == (final(skills)@.len() < old(skills)@.len()),
{
    let mut kept: Vec<Skill> = Vec::new();
    let ghost orig = skills@;
    proof {
        assert(orig.take(0) =~= Seq::<Skill>::empty());
    }
    let mut i: usize = 0;
    let total = skills.len();
    while i < total
        invariant
            i <= orig.len(),
            total == orig.len(),
            skills@.len() == orig.len() - i,
            forall|k: int| 0 <= k < skills@.len() ==> skills@[k] == orig[i + k],
            kept@ == skills_without_id(orig.take(i as int), id@),
        decreases orig.len() - i,
    {
        let entry = skills.remove(0);
        proof {
            assert(entry == orig[i as int]);
            assert(orig.take(i + 1).drop_last() =~= orig.take(i as int));
            assert(orig.take(i + 1).last() == orig[i as int]);
        }
        if entry.id == *id {
            // dropped
        } else {
            kept.push(entry);
        }
        i = i + 1;
    }
    proof {
        assert(orig.take(orig.len() as int) =~= orig);
    }
    let r = kept.len() < total;
    *skills = kept;
    r
}

/// Flips the enabled flag of the skill with the given identifier and marks
/// it updated at the given time; reports whether it was there. Nothing
/// else changes.
#[verifier::loop_isolation(false)]
pub fn toggle_skill(skills: &mut Vec<Skill>, id: &String, now: u64) -> (r: bool)
    ensures
        !r ==> final(skills)@ == old(skills)@ && (forall|k: int|
            0 <= k < old(skills)@.len() ==> (#[trigger] old(skills)@[k]).id@ != id@),
        r ==> exists|i: int|
            {
                &&& 0 <= i < old(skills)@.len()
                &&& (#[trigger] old(skills)@[i]).id@ == id@
                &&& final(skills)@.len() == old(skills)@.len()
                &&& (forall|k: int|
                    0 <= k < old(skills)@.len() && k != i ==> final(skills)@[k] == old(skills)@[k])
                &&& final(skills)@[i].enabled == !old(skills)@[i].enabled
                &&& final(skills)@[i].updated_at == now
                &&& final(skills)@[i].id == old(skills)@[i].id
                &&& final(skills)@[i].name == old(skills)@[i].name
                &&& final(skills)@[i].description == old(skills)@[i].description
                &&& final(skills)@[i].category == old(skills)@[i].category
                &&& final(skills)@[i].parameters == old(skills)@[i].parameters
                &&& final(skills)@[i].code == old(skills)@[i].code
                &&& final(skills)@[i].created_at == old(skills)@[i].created_at
            },
{
    let found = find_skill(skills, id);
    match found {
        None => false,
        Some(i) => {
            let entry = skills.remove(i);
            let flipped = Skill {
                id: entry.id,
                name: entry.name,
                description: entry.description,
                category: entry.category,
                parameters: entry.parameters,
                code: entry.code,
                enabled: !entry.enabled,
                created_at: entry.created_at,
                updated_at: now,
            };
            skills.insert(i, flipped);
            proof {
                assert forall|k: int|
                    0 <= k < old(skills)@.len() && k != i implies final(skills)@[k] == old(
                    skills,
                )@[k] by {
                    if k < i {
                        assert(old(skills)@.remove(i as int)[k] == old(skills)@[k]);
                    } else {
                        assert(old(skills)@.remove(i as int)[k - 1] == old(skills)@[k]);
                    }
                }
                assert(final(skills)@[i as int].enabled == !old(skills)@[i as int].enabled);
            }
            true
        },
    }
}

/// How many enabled skills carry the category.
pub open spec fn count_category(ss: Seq<Skill>, c: Seq<char>) -> int
    decreases ss.len(),
{
    if ss.len() == 0 {
        0
    } else {
        count_category(ss.drop_last(), c) + (if ss.last().enabled && ss.last().category@ == c {
            1int
        } else {
            0int
        })
    }
}

/// Where no enabled skill carries the category, its count is zero.
proof fn lemma_count_zero(ss: Seq<Skill>, c: Seq<char>)
    requires
        forall|t: int| 0 <= t < ss.len() && (#[trigger] ss[t]).enabled ==> ss[t].category@ != c,
    ensures
        count_category(ss, c) == 0,
    decreases ss.len(),
{
    if ss.len() > 0 {
        lemma_count_zero(ss.drop_last(), c);
    }
}

/// Position of the category with the given name.
fn find_category(out: &Vec<SkillCategory>, name: &String) -> (r: Option<usize>)
    ensures
        r is Some ==> r->Some_0 < out@.len() && out@[r->Some_0 as int].name@ == name@,
        r is None ==> forall|k: int| 0 <= k < out@.len() ==> (#[trigger] out@[k]).name@ != name@,
{
    let mut j: usize = 0;
    while j < out.len()
        invariant
            j <= out@.len(),
            forall|k: int| 0 <= k < j ==> (#[trigger] out@[k]).name@ != name@,
        decreases out@.len() - j,
    {
        if out[j].name == *name {
            return Some(j);
        }
        j = j + 1;
    }
    None
}

/// The distinct categories of the enabled skills, each with how many
/// enabled skills carry it, in order of first appearance.
#[verifier::loop_isolation(false)]
#[verifier::rlimit(100)]
pub fn skill_categories(skills: &Vec<Skill>) -> (r: Vec<SkillCategory>)
    ensures
        forall|k: int|
            0 <= k < r@.len() ==> (#[trigger] r@[k]).count == count_category(
                skills@,
                r@[k].name@,
            ) && r@[k].count > 0,
        forall|a: int, b: int|
            0 <= a < r@.len() && 0 <= b < r@.len() && a != b ==> (#[trigger] r@[a]).name@ != (
            #[trigger] r@[b]).name@,
        forall|i: int|
            0 <= i < skills@.len() && (#[trigger] skills@[i]).enabled ==> exists|k: int|
                0 <= k < r@.len() && (#[trigger] r@[k]).name@ == skills@[i].category@,
{
    let mut out: Vec<SkillCategory> = Vec::new();
    let mut i: usize = 0;
    proof {
        assert(skills@.take(0) =~= Seq::<Skill>::empty());
    }
    while i < skills.len()
        invariant
            i <= skills@.len(),
            forall|k: int|
                0 <= k < out@.len() ==> (#[trigger] out@[k]).count == count_category(
                    skills@.take(i as int),
                    out@[k].name@,
                ) && out@[k].count > 0 && out@[k].count <= i,
            forall|a: int, b: int|
                0 <= a < out@.len() && 0 <= b < out@.len() && a != b ==> (#[trigger] out@[a]).name@
                    != (#[trigger] out@[b]).name@,
            forall|t: int|
                0 <= t < i && (#[trigger] skills@[t]).enabled ==> exists|k: int|
                    0 <= k < out@.len() && (#[trigger] out@[k]).name@ == skills@[t].category@,
        decreases skills@.len() - i,
    {
        proof {
            assert(skills@.take(i + 1).drop_last() =~= skills@.take(i as int));
            assert(skills@.take(i + 1).last() == skills@[i as int]);
        }
        let s = &skills[i];
        if s.enabled {
            let ghost oldout = out@;
            match find_category(&out, &s.category) {
                Some(at) => {
                    let entry = out.remove(at);
                    let bumped = SkillCategory { name: entry.name, count: entry.count + 1 };
                    out.insert(at, bumped);
                    proof {
                        assert(out@.len() == oldout.len());
                        assert forall|k: int|
                            0 <= k < out@.len() && k != at implies out@[k] == oldout[k] by {
                            if k < at {
                                assert(oldout.remove(at as int)[k] == oldout[k]);
                            } else {
                                assert(oldout.remove(at as int)[k - 1] == oldout[k]);
                            }
                        }
                        assert(out@[at as int].name@ == oldout[at as int].name@);
                        assert(out@[at as int].count == oldout[at as int].count + 1);
                        assert forall|k: int|
                            0 <= k < out@.len() implies (#[trigger] out@[k]).count
                            == count_category(skills@.take(i + 1), out@[k].name@) && out@[k].count
                            > 0 && out@[k].count <= i + 1 by {
                            if k != at {
                                assert(out@[k].name@ != oldout[at as int].name@);
                            }
                        }
                    }
                },
                None => {
                    let name_copy = s.category.clone();
                    out.push(SkillCategory { name: name_copy, count: 1 });
                    proof {
                        lemma_count_zero(skills@.take(i as int), s.category@);
                        assert(out@.drop_last() =~= oldout);
                        assert(out@.last().name@ == s.category@);
                        assert forall|k: int|
                            0 <= k < out@.len() implies (#[trigger] out@[k]).count
                            == count_category(skills@.take(i + 1), out@[k].name@) && out@[k].count
                            > 0 && out@[k].count <= i + 1 by {
                            if k < oldout.len() {
                                assert(out@[k] == oldout[k]);
                                assert(out@[k].name@ != s.category@);
                            }
                        }
                    }
                },
            }
            proof {
                assert forall|t: int|
                    0 <= t < i + 1 && (#[trigger] skills@[t]).enabled implies exists|k: int|
                    0 <= k < out@.len() && (#[trigger] out@[k]).name@ == skills@[t].category@ by {
                    if t < i {
                        let k0 = choose|k: int|
                            0 <= k < oldout.len() && (#[trigger] oldout[k]).name@
                                == skills@[t].category@;
                        assert(out@[k0].name@ == skills@[t].category@);
                    } else {
                        let kk = choose|k: int|
                            0 <= k < out@.len() && (#[trigger] out@[k]).name@ == s.category@;
                        assert(out@[kk].name@ == skills@[t].category@);
                    }
                }
            }
        } else {
            proof {
                assert forall|k: int|
                    0 <= k < out@.len() implies (#[trigger] out@[k]).count == count_category(
                    skills@.take(i + 1),
                    out@[k].name@,
                ) by {}
            }
        }
        i = i + 1;
    }
    proof {
        assert(skills@.take(skills@.len() as int) =~= skills@);
    }
    out
}

// ---------------------------------------------------------------------------
// Skill queries.
// ---------------------------------------------------------------------------

/// A fresh copy of a parameter schema.
fn clone_parameters(ps: &Vec<SkillParameter>) -> (r: Vec<SkillParameter>)
    ensures
        r@ =~= ps@,
{
    let mut out: Vec<SkillParameter> = Vec::new();
    let mut i: usize = 0;
    while i < ps.len()
        invariant
            i <= ps@.len(),
            out@ =~= ps@.take(i as int),
        decreases ps@.len() - i,
    {
        let p = &ps[i];
        let c = SkillParameter {
            name: p.name.clone(),
            param_type: p.param_type,
            description: p.description.clone(),
            required: p.required,
            default: match &p.default {
                Some(d) => Some(d.clone()),
                None => None,
            },
        };
        proof {
            assert(c == ps@[i as int]);
            assert(ps@.take(i + 1) =~= ps@.take(i as int).push(ps@[i as int]));
        }
        out.push(c);
        i = i + 1;
    }
    proof {
        assert(ps@.take(ps@.len() as int) =~= ps@);
    }
    out
}

/// A fresh copy of a skill, standing for the same skill.
pub fn clone_skill(s: &Skill) -> (r: Skill)
    ensures
        crate::skills::skill_view(r) == crate::skills::skill_view(*s),
{
    let r = Skill {
        id: s.id.clone(),
        name: s.name.clone(),
        description: s.description.clone(),
        category: s.category.clone(),
        parameters: clone_parameters(&s.parameters),
        code: s.code.clone(),
        enabled: s.enabled,
        created_at: s.created_at,
        updated_at: s.updated_at,
    };
    proof {
        assert(r.parameters@ == s.parameters@);
    }
    r
}

/// ASCII lowercasing of the bytes.
pub fn lower_bytes(b: &Vec<u8>) -> (r: Vec<u8>)
    ensures
        r@ == crate::skills::ascii_lower(b@),
{
    let mut out: Vec<u8> = Vec::new();
    let mut i: usize = 0;
    while i < b.len()
        invariant
            i <= b@.len(),
            out@.len() == i,
            forall|k: int| 0 <= k < i ==> out@[k] == crate::skills::lower_byte(b@[k]),
        decreases b@.len() - i,
    {
        let c = b[i];
        if 65 <= c && c <= 90 {
            out.push(c + 32);
        } else {
            out.push(c);
        }
        i = i + 1;
    }
    proof {
        assert(out@ =~= crate::skills::ascii_lower(b@));
    }
    out
}

/// The needle occurs somewhere in the haystack.
pub open spec fn is_sub(hay: Seq<u8>, nee: Seq<u8>) -> bool {
    exists|k: int|
        0 <= k && k + nee.len() <= hay.len() && #[trigger] hay.subrange(k, k + nee.len() as int)
            =~= nee
}

/// Whether the needle occurs in the haystack.
#[verifier::loop_isolation(false)]
#[verifier::rlimit(100)]
pub fn contains_bytes(hay: &Vec<u8>, nee: &Vec<u8>) -> (r: bool)
    ensures
        r == is_sub(hay@, nee@),
{
    if nee.len() > hay.len() {
        return false;
    }
    let mut k: usize = 0;
    while k <= hay.len() - nee.len()
        invariant
            nee@.len() <= hay@.len(),
            k <= hay@.len() - nee@.len() + 1,
            forall|q: int|
                0 <= q < k ==> #[trigger] hay@.subrange(q, q + nee@.len() as int) !~= nee@,
        decreases hay@.len() - nee@.len() - k + 1,
    {
        let mut t: usize = 0;
        let mut hit = true;
        while t < nee.len()
            invariant
                t <= nee@.len(),
                k + nee@.len() <= hay@.len(),
                hit ==> forall|q: int| 0 <= q < t ==> hay@[k + q] == nee@[q],
                !hit ==> hay@.subrange(k as int, k + nee@.len() as int) !~= nee@,
            decreases nee@.len() - t,
        {
            if hay[k + t] != nee[t] {
                hit = false;
                proof {
                    assert(hay@.subrange(k as int, k + nee@.len() as int)[t as int] != nee@[
                    t as int]);
                }
                break ;
            }
            t = t + 1;
        }
        if hit {
            proof {
                assert(hay@.subrange(k as int, k + nee@.len() as int) =~= nee@);
            }
            return true;
        }
        proof {
            assert(hay@.subrange(k as int, k + nee@.len() as int) !~= nee@);
        }
        k = k + 1;
    }
    proof {
        assert forall|q: int|
            0 <= q && q + nee@.len() <= hay@.len() implies #[trigger] hay@.subrange(
            q,
            q + nee@.len() as int,
        ) !~= nee@ by {}
    }
    false
}

/// Whether a skill matches a search: its lowercased name or description
/// contains the lowercased query.
pub open spec fn skill_matches(s: Skill, lq: Seq<u8>) -> bool {
    ||| is_sub(
        crate::skills::ascii_lower(vstd::utf8::encode_utf8(s.name@)),
        lq,
    )
    ||| is_sub(
        crate::skills::ascii_lower(vstd::utf8::encode_utf8(s.description@)),
        lq,
    )
}

/// The skills matching the lowercased query, in their order.
pub open spec fn matching_skills(ss: Seq<Skill>, lq: Seq<u8>) -> Seq<Skill>
    decreases ss.len(),
{
    if ss.len() == 0 {
        Seq::empty()
    } else if skill_matches(ss.last(), lq) {
        matching_skills(ss.drop_last(), lq).push(ss.last())
    } else {
        matching_skills(ss.drop_last(), lq)
    }
}

/// Searches the skills by name or description, without regard to ASCII
/// case, keeping at most `limit` results where `limit` is positive.
#[verifier::loop_isolation(false)]
#[verifier::rlimit(100)]
pub fn search_skills(skills: &Vec<Skill>, query: &String, limit: i32) -> (r: Vec<Skill>)
    ensures
        ({
            let lq = crate::skills::ascii_lower(vstd::utf8::encode_utf8(query@));
            let m = matching_skills(skills@, lq);
            let kept = if 0 < limit < m.len() {
                m.take(limit as int)
            } else {
                m
            };
            &&& r@.len() == kept.len()
            &&& forall|i: int|
                0 <= i < kept.len() ==> crate::skills::skill_view(#[trigger] r@[i])
                    == crate::skills::skill_view(kept[i])
        }),
{
    let ghost lq = crate::skills::ascii_lower(vstd::utf8::encode_utf8(query@));
    let q_lower = lower_bytes(&query.as_str().as_bytes_vec());
    let mut out: Vec<Skill> = Vec::new();
    let mut i: usize = 0;
    proof {
        assert(skills@.take(0) =~= Seq::<Skill>::empty());
    }
    while i < skills.len()
        invariant
            i <= skills@.len(),
            q_lower@ == lq,
            out@.len() == matching_skills(skills@.take(i as int), lq).len(),
            forall|t: int|
                0 <= t < out@.len() ==> crate::skills::skill_view(#[trigger] out@[t])
                    == crate::skills::skill_view(matching_skills(skills@.take(i as int), lq)[t]),
        decreases skills@.len() - i,
    {
        proof {
            assert(skills@.take(i + 1).drop_last() =~= skills@.take(i as int));
            assert(skills@.take(i + 1).last() == skills@[i as int]);
        }
        let s = &skills[i];
        let name_l = lower_bytes(&s.name.as_str().as_bytes_vec());
        let desc_l = lower_bytes(&s.description.as_str().as_bytes_vec());
        if contains_bytes(&name_l, &q_lower) || contains_bytes(&desc_l, &q_lower) {
            proof {
                assert(skill_matches(skills@[i as int], lq));
            }
            out.push(clone_skill(s));
        } else {
            proof {
                assert(!skill_matches(skills@[i as int], lq));
            }
        }
        i = i + 1;
    }
    proof {
        assert(skills@.take(skills@.len() as int) =~= skills@);
    }
    if limit > 0 && (limit as usize) < out.len() {
        out.truncate(limit as usize);
    }
    out
}

/// The enabled skills of a category, in their order.
pub open spec fn skills_in_category(ss: Seq<Skill>, c: Seq<char>) -> Seq<Skill>
    decreases ss.len(),
{
    if ss.len() == 0 {
        Seq::empty()
    } else if ss.last().enabled && ss.last().category@ == c {
        skills_in_category(ss.drop_last(), c).push(ss.last())
    } else {
        skills_in_category(ss.drop_last(), c)
    }
}

/// The enabled skills carrying the given category, in their order.
#[verifier::loop_isolation(false)]
pub fn skills_by_category(skills: &Vec<Skill>, category: &String) -> (r: Vec<Skill>)
    ensures
        r@.len() == skills_in_category(skills@, category@).len(),
        forall|i: int|
            0 <= i < r@.len() ==> crate::skills::skill_view(#[trigger] r@[i])
                == crate::skills::skill_view(skills_in_category(skills@, category@)[i]),
{
    let mut out: Vec<Skill> = Vec::new();
    let mut i: usize = 0;
    proof {
        assert(skills@.take(0) =~= Seq::<Skill>::empty());
    }
    while i < skills.len()
        invariant
            i <= skills@.len(),
            out@.len() == skills_in_category(skills@.take(i as int), category@).len(),
            forall|t: int|
                0 <= t < out@.len() ==> crate::skills::skill_view(#[trigger] out@[t])
                    == crate::skills::skill_view(
                    skills_in_category(skills@.take(i as int), category@)[t],
                ),
        decreases skills@.len() - i,
    {
        proof {
            assert(skills@.take(i + 1).drop_last() =~= skills@.take(i as int));
            assert(skills@.take(i + 1).last() == skills@[i as int]);
        }
        let s = &skills[i];
        if s.enabled && s.category == *category {
            out.push(clone_skill(s));
        }
        i = i + 1;
    }
    proof {
        assert(skills@.take(skills@.len() as int) =~= skills@);
    }
    out
}

/// Marks every skill as refreshed at the given time; reports how many
/// there are. Nothing else changes.
#[verifier::loop_isolation(false)]
pub fn reindex_skills(skills: &mut Vec<Skill>, now: u64) -> (r: usize)
    ensures
        r == old(skills)@.len(),
        final(skills)@.len() == old(skills)@.len(),
        forall|k: int|
            0 <= k < old(skills)@.len() ==> {
                &&& (#[trigger] final(skills)@[k]).updated_at == now
                &&& final(skills)@[k].id == old(skills)@[k].id
                &&& final(skills)@[k].name == old(skills)@[k].name
                &&& final(skills)@[k].description == old(skills)@[k].description
                &&& final(skills)@[k].category == old(skills)@[k].category
                &&& final(skills)@[k].parameters == old(skills)@[k].parameters
                &&& final(skills)@[k].code == old(skills)@[k].code
                &&& final(skills)@[k].enabled == old(skills)@[k].enabled
                &&& final(skills)@[k].created_at == old(skills)@[k].created_at
            },
{
    let total = skills.len();
    let mut done: Vec<Skill> = Vec::new();
    let ghost orig = skills@;
    let mut i: usize = 0;
    while i < total
        invariant
            i <= orig.len(),
            total == orig.len(),
            skills@.len() == orig.len() - i,
            forall|k: int| 0 <= k < skills@.len() ==> skills@[k] == orig[i + k],
            done@.len() == i,
            forall|k: int|
                0 <= k < i ==> {
                    &&& (#[trigger] done@[k]).updated_at == now
                    &&& done@[k].id == orig[k].id
                    &&& done@[k].name == orig[k].name
                    &&& done@[k].description == orig[k].description
                    &&& done@[k].category == orig[k].category
                    &&& done@[k].parameters == orig[k].parameters
                    &&& done@[k].code == orig[k].code
                    &&& done@[k].enabled == orig[k].enabled
                    &&& done@[k].created_at == orig[k].created_at
                },
        decreases orig.len() - i,
    {
        let entry = skills.remove(0);
        proof {
            assert(entry == orig[i as int]);
        }
        let refreshed = Skill {
            id: entry.id,
            name: entry.name,
            description: entry.description,
            category: entry.category,
            parameters: entry.parameters,
            code: entry.code,
            enabled: entry.enabled,
            created_at: entry.created_at,
            updated_at: now,
        };
        done.push(refreshed);
        i = i + 1;
    }
    *skills = done;
    total
}

} // verus!
