//! The tool's own configuration: where the registry lives.

use vstd::prelude::*;

verus! {

/// Where the configuration file is looked for by default.
pub fn default_config_path() -> (r: String)
    ensures
        r@ == "./config.toml"@,
{
    "./config.toml".to_owned()
}

/// The tool's configuration document.
#[derive(Debug, Clone, PartialEq)]
pub struct AppConfig {
    pub server: AppServer,
}

/// The registry endpoint.
#[derive(Debug, Clone, PartialEq)]
pub struct AppServer {
    pub registry_url: String,
}

} // verus!
