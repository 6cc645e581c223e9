//! Lua source files and documentation entries handed to the Lua runtime.
use vstd::prelude::*;

verus! {

/// The contents of a Lua file and the name it is loaded under.
pub struct LuaSourceFile {
    pub contents: String,
    pub name: String,
}

/// Documentation strings for Lua symbols: (module, symbol, text) triples.
pub struct LuaDocstringData {
    pub data: &'static [(&'static str, &'static str, &'static str)],
}

} // verus!
