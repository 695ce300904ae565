//! What agents can call.

use folio_core::json::{Json, Numeral};
use folio_core::mcp::calls::{find_tool, tool_caller};
use folio_core::mcp::tools::tools;

fn names_in(v: &Json) -> Vec<String> {
    match v {
        Json::Array(items) => items.iter().map(|i| i.as_str().unwrap().to_string()).collect(),
        _ => panic!("not an array"),
    }
}

#[test]
fn the_tool_surface_matches_the_specification() {
    let names: Vec<&str> = tools().iter().map(|t| t.name).collect();
    for expected in [
        "list_roots", "list_docs", "read_doc", "search_docs",
        "list_versions", "read_version", "diff_versions", "checkpoint",
        "propose_edit", "task_list", "task_add", "task_set_status",
        "validate_doc", "render_prompt", "list_proposals", "list_comments", "reply_comment",
        "add_root",
    ] {
        assert!(names.contains(&expected), "missing tool {expected}");
    }
    assert_eq!(names.len(), 18, "tool surface changed: {names:?}");
}

#[test]
fn every_tool_has_a_valid_object_schema() {
    for def in tools() {
        let schema = def.schema();
        assert_eq!(
            schema.get("type").unwrap().as_str(),
            Some("object"),
            "{} schema is not an object",
            def.name
        );
        assert!(schema.get("properties").is_some(), "{} has no properties", def.name);
        let required = names_in(schema.get("required").expect("required must be an array"));
        for key in required {
            assert!(
                schema.get("properties").unwrap().get(&key).is_some(),
                "{} requires `{key}` but does not declare it",
                def.name
            );
        }
    }
}

#[test]
fn proposals_expose_the_version_bound_review_contract() {
    let def = tools().into_iter().find(|def| def.name == "propose_edit").unwrap();
    let schema = def.schema();
    assert!(schema.get("properties").unwrap().get("base_version").is_some());
    assert!(names_in(schema.get("required").unwrap()).iter().any(|value| value == "intent"));
}

#[test]
fn no_tool_lets_an_agent_decide_a_proposal_or_resolve_a_thread() {
    // The human keeps judgement. These operations exist in dispatch but
    // are deliberately absent from the agent-facing surface.
    let names: Vec<&str> = tools().iter().map(|t| t.op).collect();
    for forbidden in [
        "accept_proposal", "reject_proposal", "rebase_proposal",
        "create_comment", "resolve_comment", "delete_comment",
        "save_doc", "restore_version",
    ] {
        assert!(!names.contains(&forbidden), "{forbidden} must not be an MCP tool");
    }
}

#[test]
fn a_tool_is_found_by_its_name() {
    let tool = find_tool("reply_comment").unwrap();
    assert_eq!(tool.op, "reply_comment");
    assert!(!tool.read_only);
    assert!(find_tool("read_doc").unwrap().read_only);
    assert_eq!(find_tool("accept_proposal").unwrap_err(), "unknown tool `accept_proposal`");
}

#[test]
fn a_call_is_attributed_to_the_author_that_it_names() {
    let named = Json::Object(vec![("author".into(), Json::Text("sonnet-4.6".into()))]);
    let caller = tool_caller(&named, Some("fallback"), "alpha-code");
    assert_eq!(caller.author, "sonnet-4.6");
    assert_eq!(caller.client, "alpha-code");
    assert!(!caller.is_human);
    let empty = Json::Object(vec![("author".into(), Json::Number(Numeral::Unsigned(1)))]);
    assert_eq!(tool_caller(&empty, Some("fallback"), "alpha-code").author, "fallback");
    assert_eq!(tool_caller(&empty, None, "alpha-code").author, "alpha-code");
}
