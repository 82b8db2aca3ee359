use vstd::prelude::*;

pub mod config_value;
pub mod crypto;
pub mod discovery;
pub mod dispatch;
pub mod effects;
pub mod error;
pub mod exec;
pub mod frontmatter;
pub mod git;
pub mod hljs;
pub mod jsdiff;
pub mod json;
pub mod kernel;
pub mod package;
pub mod package_settings;
pub mod packages;
pub mod lifecycle;
pub mod modules;
pub mod model_registry;
pub mod net;
pub mod order;
pub mod path;
pub mod paths;
pub mod registry;
pub mod resource_loader;
pub mod schema;
pub mod settings_manager;
pub mod text;
pub mod timer;
pub mod trust;

verus! {

/// The default watchdog budget of one dispatch, in milliseconds of
/// continuous Lua execution.
pub const DEFAULT_DISPATCH_TIMEOUT_MS: i64 = 5000;

/// The host's configuration: the dispatch watchdog budget, and the
/// working directory of file and process effects (the process's own when
/// none is given).
#[derive(Debug, Clone)]
pub struct HostConfig {
    pub dispatch_timeout_ms: i64,
    pub cwd: Option<String>,
}

impl Default for HostConfig {
    fn default() -> (r: Self)
        ensures
            r.dispatch_timeout_ms == DEFAULT_DISPATCH_TIMEOUT_MS,
            r.cwd is None,
    {
        HostConfig { dispatch_timeout_ms: DEFAULT_DISPATCH_TIMEOUT_MS, cwd: None }
    }
}

} // verus!
