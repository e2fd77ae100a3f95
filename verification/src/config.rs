//! User-facing configuration of the search pipeline. The configuration is
//! owned by the command-line layer; this module holds the value itself and
//! the pure pieces of its handling: the engine choice, the in-memory update
//! of the API key, and the paths of the files under a resolved
//! configuration directory.

use vstd::prelude::*;

verus! {

use vstd::string::StringExecFns;

/// Which engine discovers results for a query: one of the two scraped web
/// search providers, or the platform's own search.
#[derive(Debug, Clone, PartialEq, Eq, Structural)]
pub enum SearchEngine {
    DuckDuckGo,
    Google,
    StackExchange,
}

impl SearchEngine {
    /// The configuration-file spelling of the engine name.
    pub fn name(&self) -> (r: String)
        ensures
            self is DuckDuckGo ==> r@ == "duckduckgo"@,
            self is Google ==> r@ == "google"@,
            self is StackExchange ==> r@ == "stackexchange"@,
    {
        match self {
            SearchEngine::DuckDuckGo => String::from_str("duckduckgo"),
            SearchEngine::Google => String::from_str("google"),
            SearchEngine::StackExchange => String::from_str("stackexchange"),
        }
    }
}

/// Everything the orchestrator needs to know about a search run: the chosen
/// engine, the target site codes, the result limit, an optional API key, the
/// "lucky" flag, and the user's clipboard command.
#[derive(Debug, Clone)]
pub struct Config {
    pub api_key: Option<String>,
    pub limit: u16,
    pub lucky: bool,
    pub sites: Vec<String>,
    pub search_engine: SearchEngine,
    pub copy_cmd: Option<String>,
}

impl Config {
    /// Replaces the API key, leaving the rest of the configuration as it is.
    pub fn set_api_key(&mut self, key: String)
        ensures
            final(self).api_key == Some(key),
            final(self).limit == old(self).limit,
            final(self).lucky == old(self).lucky,
            final(self).sites == old(self).sites,
            final(self).search_engine == old(self).search_engine,
            final(self).copy_cmd == old(self).copy_cmd,
    {
        self.api_key = Some(key);
    }

    /// The configuration file under a resolved configuration directory.
    pub fn config_file_path(config_dir: &str) -> (r: String)
        ensures
            r@ == config_dir@ + "/config.yml"@,
    {
        String::from_str(config_dir).concat("/config.yml")
    }

    /// The colour-theme file under a resolved configuration directory.
    pub fn theme_file_path(config_dir: &str) -> (r: String)
        ensures
            r@ == config_dir@ + "/colors.toml"@,
    {
        String::from_str(config_dir).concat("/colors.toml")
    }
}

} // verus!
