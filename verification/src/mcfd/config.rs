//! The settings of one datapack as the `mcfd` service reads them from the
//! pack's descriptor: where its log and files are, and which host
//! capabilities it may use.
use vstd::prelude::*;

verus! {

/// One pack's settings. Paths are kept as text.
#[derive(Debug, Clone)]
pub struct Config {
    /// Version of the request protocol the pack speaks.
    pub protocol: u32,
    /// Identifier the pack puts into its requests.
    pub pack_id: String,
    /// Datapack namespace (matches the compiled pack).
    pub namespace: String,
    /// Explicit path of the Minecraft log, if the pack names one.
    pub log: Option<String>,
    /// Path of the datapack root.
    pub datapack: String,
    pub poll_ms: u64,
    /// How long a computed result stays in the inbox.
    pub result_ttl_secs: u64,
    pub capabilities: Capabilities,
    /// What the pack asks of the optional JVM agent.
    pub agent: AgentConfig,
    /// Named secrets the pack may use.
    pub secrets: Vec<(String, String)>,
    /// The log path in use (the explicit one or one found on disk).
    pub log_path: String,
}

/// The host capabilities a pack may use.
#[derive(Debug, Clone)]
pub struct Capabilities {
    pub http: Option<HttpCaps>,
    pub file: Option<FileCaps>,
    pub kv: Option<KvCaps>,
    pub db: Option<DbCaps>,
    pub time: bool,
    pub rand: bool,
}

impl Default for Capabilities {
    fn default() -> (r: Self)
        ensures
            r.http is None,
            r.file is None,
            r.kv is None,
            r.db is None,
            !r.time,
            !r.rand,
    {
        Capabilities { http: None, file: None, kv: None, db: None, time: false, rand: false }
    }
}

/// HTTP access, limited to some domains and their subdomains.
#[derive(Debug, Clone)]
pub struct HttpCaps {
    pub allow_domains: Vec<String>,
}

/// File access below a root directory.
#[derive(Debug, Clone)]
pub struct FileCaps {
    pub root: String,
}

/// A key-value store kept as files below a root directory.
#[derive(Debug, Clone)]
pub struct KvCaps {
    pub root: String,
}

/// An SQLite database.
#[derive(Debug, Clone)]
pub struct DbCaps {
    pub path: String,
}

/// What a pack asks of the optional JVM agent.
#[derive(Debug, Clone)]
pub struct AgentConfig {
    pub enabled: bool,
    pub events: Vec<String>,
    pub commands: Vec<String>,
    pub cancel_events: Vec<String>,
    pub deciders: Vec<String>,
}

} // verus!
