//! Calling a tool.

use super::schema::{tool_models, ToolDef, ToolModel};
use super::tools::{tool_surface, tools};
use crate::api::request::Caller;
use crate::json::{get_of, Json, JsonModel};
use crate::text::{opt_str_view, same_str};
use vstd::prelude::*;

verus! {

/// The tool with a name.
pub open spec fn tool_named(tools: Seq<ToolModel>, name: Seq<char>) -> Option<ToolModel>
    decreases tools.len(),
{
    if tools.len() == 0 {
        None
    } else if tools[0].name == name {
        Some(tools[0])
    } else {
        tool_named(tools.skip(1), name)
    }
}

/// What a caller is told of a tool that is not there.
pub open spec fn no_tool(name: Seq<char>) -> Seq<char> {
    "unknown tool `"@ + name + "`"@
}

/// The tool with a name, or what a caller is told.
pub fn find_tool(name: &str) -> (out: std::result::Result<ToolDef, String>)
    ensures
        match out {
            Ok(t) => tool_named(tool_surface(), name@) == Some(t@),
            Err(m) => tool_named(tool_surface(), name@) is None && m@ == no_tool(name@),
        },
{
    let mut all = tools();
    let ghost models = tool_models(all@);
    let mut i: usize = 0;
    assert(models.skip(0) =~= models);
    while i < all.len()
        invariant
            i <= all@.len(),
            models == tool_models(all@),
            models == tool_surface(),
            tool_named(models, name@) == tool_named(models.skip(i as int), name@),
        decreases all@.len() - i,
    {
        assert(models.skip(i as int)[0] == models[i as int]);
        assert(models.skip(i as int).skip(1) =~= models.skip(i + 1));
        if same_str(all[i].name, name) {
            return Ok(all.swap_remove(i));
        }
        i += 1;
    }
    let mut m = "unknown tool `".to_owned();
    m.append(name);
    m.append("`");
    Err(m)
}

/// Whom a call is attributed to: the author that it names, else the default,
/// else the client.
pub open spec fn author_of(
    arguments: JsonModel,
    default_author: Option<Seq<char>>,
    client: Seq<char>,
) -> Seq<char> {
    match get_of(arguments, "author"@) {
        Some(JsonModel::Text(name)) => name,
        _ => match default_author {
            Some(name) => name,
            None => client,
        },
    }
}

/// Who calls a tool: always an agent.
pub fn tool_caller(arguments: &Json, default_author: Option<&str>, client: &str) -> (out: Caller)
    ensures
        out.author@ == author_of(arguments@, opt_str_view(default_author), client@),
        out.client@ == client@,
        !out.is_human,
{
    let fallback = match default_author {
        Some(name) => name,
        None => client,
    };
    match arguments.get("author") {
        Some(Json::Text(name)) => Caller::agent(name.as_str(), client),
        _ => Caller::agent(fallback, client),
    }
}

/// The name that a client is known by before it has said one.
pub const UNNAMED_CLIENT: &'static str = "mcp-client";

} // verus!
