//! What the engine hands to plugins when they register.
use vstd::prelude::*;
use crate::value::owned;

verus! {

/// The version of the engine reported to plugins.
pub const ENGINE_VERSION: &'static str = "0.1.0";

/// Context passed to a plugin when it registers.
#[derive(Debug)]
pub struct PluginContext {
    pub engine_version: String,
}

impl PluginContext {
    pub fn new() -> (r: PluginContext)
        ensures
            r.engine_version@ == ENGINE_VERSION@,
    {
        PluginContext { engine_version: owned(ENGINE_VERSION) }
    }
}

} // verus!
