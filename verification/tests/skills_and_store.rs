//! Skills, their argument validation, and the in-memory stores, on
//! concrete values.

use mcp_core::json::JsonValue;
use mcp_core::skills::ParamFaultKind;
use mcp_core::skills::Skill;
use mcp_core::skills::SkillParameter;
use mcp_core::skills::SkillParameterType;
use mcp_core::skills::validate_params;
use mcp_core::store::McpServer;
use mcp_core::store::add_server;
use mcp_core::store::add_skill;
use mcp_core::store::delete_server;
use mcp_core::store::delete_skill;
use mcp_core::store::find_server;
use mcp_core::store::find_skill;
use mcp_core::store::search_skills;
use mcp_core::store::skill_categories;
use mcp_core::store::skills_by_category;
use mcp_core::store::toggle_skill;
use mcp_core::store::update_server;
use std::collections::HashMap;

fn obj(members: Vec<(&str, JsonValue)>) -> JsonValue {
    JsonValue::Object(
        members.into_iter().map(|(k, v)| (k.as_bytes().to_vec(), v)).collect(),
    )
}

fn s(text: &str) -> JsonValue {
    JsonValue::Str(text.as_bytes().to_vec())
}

fn skill(id: &str, name: &str, category: &str, enabled: bool) -> Skill {
    Skill {
        id: id.to_string(),
        name: name.to_string(),
        description: "A test skill".to_string(),
        category: category.to_string(),
        parameters: vec![],
        code: "return params;".to_string(),
        enabled,
        created_at: 1234567890,
        updated_at: 1234567890,
    }
}

#[test]
fn test_skill_execution_string_concatenation() {
    // Test string operations in skill code
    let result = format!("Hello, {}!", "World");
    assert_eq!(result, "Hello, World!");
}

#[test]
fn test_skill_execution_array_operations() {
    // Test array operations
    let arr = [1, 2, 3, 4, 5];
    let sum: i32 = arr.iter().sum();
    assert_eq!(sum, 15);

    let doubled: Vec<i32> = arr.iter().map(|x| x * 2).collect();
    assert_eq!(doubled, vec![2, 4, 6, 8, 10]);
}

#[test]
fn test_skill_execution_with_params() {
    // parameters are visible to the skill run, as structured values
    let params = obj(vec![("name", s("test_user")), ("count", JsonValue::Int(5))]);
    assert_eq!(
        mcp_core::rpc::obj_get(&params, &b"name".to_vec()),
        Some(s("test_user"))
    );
    assert_eq!(
        mcp_core::rpc::obj_get(&params, &b"count".to_vec()),
        Some(JsonValue::Int(5))
    );
}

#[test]
fn test_skill_execution_object_operations() {
    let value = obj(vec![("name", s("test")), ("value", JsonValue::Int(100))]);
    assert_eq!(mcp_core::rpc::obj_get(&value, &b"name".to_vec()), Some(s("test")));
    assert_eq!(
        mcp_core::rpc::obj_get(&value, &b"value".to_vec()),
        Some(JsonValue::Int(100))
    );
    let serialized = mcp_core::json::to_bytes(&value);
    let text = String::from_utf8(serialized).unwrap();
    assert!(text.contains("test"));
    assert!(text.contains("100"));
}

#[test]
fn test_skill_parameter_validation() {
    let params = vec![
        SkillParameter {
            name: "name".to_string(),
            param_type: SkillParameterType::Text,
            description: "Name parameter".to_string(),
            required: true,
            default: None,
        },
        SkillParameter {
            name: "count".to_string(),
            param_type: SkillParameterType::Number,
            description: "Count parameter".to_string(),
            required: false,
            default: Some("0".to_string()),
        },
    ];

    // Valid params
    let valid_input = obj(vec![("name", s("test")), ("count", JsonValue::Int(5))]);
    assert!(validate_params(&params, &valid_input).is_empty());

    // Missing required param
    let invalid_input = obj(vec![("count", JsonValue::Int(5))]);
    let faults = validate_params(&params, &invalid_input);
    assert_eq!(faults.len(), 1);
    assert_eq!(faults[0].index, 0);
    assert!(matches!(faults[0].kind, ParamFaultKind::Missing));

    // Wrong type
    let wrong_type = obj(vec![("name", s("test")), ("count", s("five"))]);
    let faults = validate_params(&params, &wrong_type);
    assert_eq!(faults.len(), 1);
    assert_eq!(faults[0].index, 1);
    assert!(matches!(faults[0].kind, ParamFaultKind::WrongType));
}

#[test]
fn parameter_type_names_round_trip() {
    assert!(matches!(SkillParameterType::from_str("string"), SkillParameterType::Text));
    assert!(matches!(SkillParameterType::from_str("STRING"), SkillParameterType::Text));
    assert!(matches!(SkillParameterType::from_str("Number"), SkillParameterType::Number));
    assert!(matches!(SkillParameterType::from_str("boolean"), SkillParameterType::Boolean));
    assert!(matches!(SkillParameterType::from_str("array"), SkillParameterType::Array));
    assert!(matches!(SkillParameterType::from_str("object"), SkillParameterType::Object));
    assert!(matches!(SkillParameterType::from_str("whatever"), SkillParameterType::Text));
    assert_eq!(SkillParameterType::Text.as_str(), "string");
    assert_eq!(SkillParameterType::Number.as_str(), "number");
    assert_eq!(SkillParameterType::Boolean.as_str(), "boolean");
    assert_eq!(SkillParameterType::Array.as_str(), "array");
    assert_eq!(SkillParameterType::Object.as_str(), "object");
}

#[test]
fn test_state_operations() {
    // fresh stores start empty
    let servers: Vec<McpServer> = Vec::new();
    let skills: Vec<Skill> = Vec::new();
    let providers: Vec<mcp_core::store::LLMProvider> = Vec::new();
    assert!(servers.is_empty());
    assert!(skills.is_empty());
    assert!(providers.is_empty());
}

#[test]
fn test_mcp_server_state_transitions() {
    let mut servers: Vec<McpServer> = Vec::new();

    // Add an MCP server
    add_server(&mut servers, McpServer {
        id: "test_server".to_string(),
        server_type: "stdio".to_string(),
        command: "echo".to_string(),
        args: vec!["test".to_string()],
        env: HashMap::new(),
    });

    // Verify it was added
    assert_eq!(servers.len(), 1);
    assert_eq!(servers[0].id, "test_server");
    assert!(find_server(&servers, &"test_server".to_string()).is_some());

    // Remove the server
    assert!(delete_server(&mut servers, &"test_server".to_string()));
    assert!(servers.is_empty());
}

#[test]
fn test_skill_state_operations() {
    let mut skills: Vec<Skill> = Vec::new();

    // Add a skill
    add_skill(&mut skills, Skill {
        id: "test_skill".to_string(),
        name: "Test Skill".to_string(),
        description: "A test skill".to_string(),
        category: "Testing".to_string(),
        parameters: vec![],
        code: "return params;".to_string(),
        enabled: true,
        created_at: 1234567890,
        updated_at: 1234567890,
    });

    // Verify it was added
    assert_eq!(skills.len(), 1);
    assert_eq!(skills[0].name, "Test Skill");

    // Toggle enabled state
    assert!(toggle_skill(&mut skills, &"test_skill".to_string(), 1234567999));
    assert!(!skills[0].enabled);
    assert_eq!(skills[0].updated_at, 1234567999);
}

#[test]
fn update_changes_only_the_named_server() {
    let mut servers: Vec<McpServer> = Vec::new();
    add_server(&mut servers, McpServer {
        id: "one".to_string(),
        server_type: "stdio".to_string(),
        command: "alpha".to_string(),
        args: vec![],
        env: HashMap::new(),
    });
    add_server(&mut servers, McpServer {
        id: "two".to_string(),
        server_type: "stdio".to_string(),
        command: "beta".to_string(),
        args: vec![],
        env: HashMap::new(),
    });
    let hit = update_server(&mut servers, &"two".to_string(), Some("gamma".to_string()), None, None);
    assert_eq!(hit, Some(1));
    assert_eq!(servers[0].command, "alpha");
    assert_eq!(servers[1].command, "gamma");
    assert_eq!(servers[1].server_type, "stdio");
    let miss = update_server(&mut servers, &"three".to_string(), Some("x".to_string()), None, None);
    assert!(miss.is_none());
}

#[test]
fn skill_deletion_is_reported() {
    let mut skills: Vec<Skill> = Vec::new();
    add_skill(&mut skills, skill("a", "First", "Testing", true));
    add_skill(&mut skills, skill("b", "Second", "Testing", true));
    assert!(delete_skill(&mut skills, &"a".to_string()));
    assert_eq!(skills.len(), 1);
    assert!(find_skill(&skills, &"a".to_string()).is_none());
    assert!(!delete_skill(&mut skills, &"a".to_string()));
}

#[test]
fn search_matches_names_without_regard_to_case() {
    let mut skills: Vec<Skill> = Vec::new();
    add_skill(&mut skills, skill("a", "Weather Report", "Utility", true));
    add_skill(&mut skills, skill("b", "Calculator", "Math", true));
    add_skill(&mut skills, skill("c", "Weather Alarm", "Utility", true));
    let found = search_skills(&skills, &"weather".to_string(), 0);
    assert_eq!(found.len(), 2);
    assert_eq!(found[0].name, "Weather Report");
    assert_eq!(found[1].name, "Weather Alarm");
    let limited = search_skills(&skills, &"weather".to_string(), 1);
    assert_eq!(limited.len(), 1);
    assert_eq!(limited[0].name, "Weather Report");
    // descriptions match too: every test skill's description says "test"
    let all = search_skills(&skills, &"TEST".to_string(), 0);
    assert_eq!(all.len(), 3);
}

#[test]
fn categories_count_enabled_skills() {
    let mut skills: Vec<Skill> = Vec::new();
    add_skill(&mut skills, skill("a", "First", "Utility", true));
    add_skill(&mut skills, skill("b", "Second", "Math", true));
    add_skill(&mut skills, skill("c", "Third", "Utility", true));
    add_skill(&mut skills, skill("d", "Fourth", "Utility", false));
    let cats = skill_categories(&skills);
    assert_eq!(cats.len(), 2);
    assert_eq!(cats[0].name, "Utility");
    assert_eq!(cats[0].count, 2);
    assert_eq!(cats[1].name, "Math");
    assert_eq!(cats[1].count, 1);
    let in_utility = skills_by_category(&skills, &"Utility".to_string());
    assert_eq!(in_utility.len(), 2);
    assert_eq!(in_utility[0].id, "a");
    assert_eq!(in_utility[1].id, "c");
}
