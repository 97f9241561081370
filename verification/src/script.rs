//! The embedded scripting runtime, behind trusted wrappers around `rlua`.
//! Scripts share one mutable global namespace per engine, so nothing useful
//! can be promised of an evaluation's outcome: callers state what holds
//! whatever comes back, and value-level failures surface as `None`.

use vstd::prelude::*;

verus! {

#[verifier::external_type_specification]
#[verifier::external_body]
pub struct ExLua(rlua::Lua);

/// Relies on `rlua::Lua::new`: a fresh runtime with an empty global namespace.
#[verifier::external_body]
pub(crate) fn lua_new() -> rlua::Lua {
    rlua::Lua::new()
}

/// Relies on `rlua::Lua::context`, `Context::load` and `Chunk::eval`: runs a
/// script for its side effects on the shared globals; on failure the error's
/// message is returned.
#[verifier::external_body]
pub(crate) fn lua_run(lua: &rlua::Lua, script: &str) -> (r: Result<(), String>) {
    lua.context(|ctx| ctx.load(script).eval::<()>()).map_err(|e| e.to_string())
}

/// Relies on `Context::globals`, `Table::set` and `Chunk::eval`: binds `chunk`
/// in the globals, evaluates the script, and coerces the result to a string;
/// `None` on any failure. The outcome depends on the runtime's global state.
#[verifier::external_body]
pub(crate) fn lua_eval_string(lua: &rlua::Lua, script: &str, chunk: &str) -> (r: Option<String>) {
    lua.context(|ctx| {
        ctx.globals().set("chunk", chunk)?;
        ctx.load(script).eval::<String>()
    }).ok()
}

/// Relies on the same `rlua` operations as the string evaluation, with the
/// result coerced to a boolean; `None` on any failure.
#[verifier::external_body]
pub(crate) fn lua_eval_bool(lua: &rlua::Lua, script: &str, chunk: &str) -> (r: Option<bool>) {
    lua.context(|ctx| {
        ctx.globals().set("chunk", chunk)?;
        ctx.load(script).eval::<bool>()
    }).ok()
}

} // verus!
