//! Configuration: the resolved values the system runs on, and how a local
//! configuration overrides the global one.
//!
//! Reading and parsing the configuration files happens at the system's
//! edge; this module consumes the resolved values and settles the merge:
//! a local value wins wherever the local file provides one.

use vstd::prelude::*;

verus! {

/// Watching and reindex-debounce settings.
pub struct GitWatchConfig {
    pub enabled: bool,
    pub debounce_ms: u64,
}

impl GitWatchConfig {
    /// Copy the settings.
    pub fn duplicate(&self) -> (r: GitWatchConfig)
        ensures
            r == *self,
    {
        GitWatchConfig { enabled: self.enabled, debounce_ms: self.debounce_ms }
    }
}

impl Default for GitWatchConfig {
    /// Watching on, with half a second of quiet before a reindex.
    fn default() -> (r: GitWatchConfig)
        ensures
            r.enabled == true,
            r.debounce_ms == crate::git_watcher::DEFAULT_DEBOUNCE_MS,
    {
        GitWatchConfig { enabled: true, debounce_ms: crate::git_watcher::DEFAULT_DEBOUNCE_MS }
    }
}

/// Reranker settings, reserved for a remote-reranker variant.
pub struct RerankerConfig {
    pub use_external_service: bool,
    pub service_url: Option<Vec<u8>>,
}

/// Is `r` a value-for-value copy of `c`?
pub open spec fn reranker_config_eq(r: RerankerConfig, c: RerankerConfig) -> bool {
    &&& r.use_external_service == c.use_external_service
    &&& (c.service_url is None ==> r.service_url is None)
    &&& forall|u: Vec<u8>| c.service_url == Some(u)
            ==> (exists|v: Vec<u8>| r.service_url == Some(v) && v@ == u@)
}

impl RerankerConfig {
    /// Copy the settings.
    pub fn duplicate(&self) -> (r: RerankerConfig)
        ensures
            reranker_config_eq(r, *self),
    {
        let service_url: Option<Vec<u8>> = match &self.service_url {
            Some(u) => Some(vstd::slice::slice_to_vec(u.as_slice())),
            None => None,
        };
        RerankerConfig { use_external_service: self.use_external_service, service_url }
    }
}

/// One configuration, as resolved from one file (or the defaults).
pub struct Config {
    pub model_cache_dir: Option<Vec<u8>>,
    pub reranker: Option<RerankerConfig>,
    pub git_watch: GitWatchConfig,
}

/// Does `r` hold the same values as `c`?
pub open spec fn config_eq(r: Config, c: Config) -> bool {
    &&& (c.model_cache_dir is None ==> r.model_cache_dir is None)
    &&& (forall|u: Vec<u8>| c.model_cache_dir == Some(u)
            ==> (exists|v: Vec<u8>| r.model_cache_dir == Some(v) && v@ == u@))
    &&& (c.reranker is None ==> r.reranker is None)
    &&& (forall|x: RerankerConfig| c.reranker == Some(x)
            ==> (exists|y: RerankerConfig| r.reranker == Some(y) && reranker_config_eq(y, x)))
    &&& r.git_watch == c.git_watch
}

impl Config {
    /// Copy the configuration.
    pub fn duplicate(&self) -> (r: Config)
        ensures
            config_eq(r, *self),
    {
        let model_cache_dir: Option<Vec<u8>> = match &self.model_cache_dir {
            Some(u) => Some(vstd::slice::slice_to_vec(u.as_slice())),
            None => None,
        };
        let reranker: Option<RerankerConfig> = match &self.reranker {
            Some(x) => Some(x.duplicate()),
            None => None,
        };
        Config { model_cache_dir, reranker, git_watch: self.git_watch.duplicate() }
    }
}

impl Default for Config {
    /// Nothing overridden; watching on with the default quiet period.
    fn default() -> (r: Config)
        ensures
            r.model_cache_dir is None,
            r.reranker is None,
            r.git_watch.enabled == true,
            r.git_watch.debounce_ms == crate::git_watcher::DEFAULT_DEBOUNCE_MS,
    {
        Config { model_cache_dir: None, reranker: None, git_watch: GitWatchConfig::default() }
    }
}

/// The merge of a global and an optional local configuration: the local
/// value wins wherever the local file provides one, and the whole watch
/// section follows the local file when it exists.
pub open spec fn is_merged(merged: Config, global: Config, local: Option<Config>) -> bool {
    match local {
        None => config_eq(merged, global),
        Some(l) => {
            &&& (if l.model_cache_dir is Some {
                forall|u: Vec<u8>| l.model_cache_dir == Some(u)
                    ==> (exists|v: Vec<u8>| merged.model_cache_dir == Some(v) && v@ == u@)
            } else {
                (global.model_cache_dir is None ==> merged.model_cache_dir is None)
                    && (forall|u: Vec<u8>| global.model_cache_dir == Some(u)
                        ==> (exists|v: Vec<u8>| merged.model_cache_dir == Some(v) && v@ == u@))
            })
            &&& (if l.reranker is Some {
                forall|x: RerankerConfig| l.reranker == Some(x)
                    ==> (exists|y: RerankerConfig| merged.reranker == Some(y)
                        && reranker_config_eq(y, x))
            } else {
                (global.reranker is None ==> merged.reranker is None)
                    && (forall|x: RerankerConfig| global.reranker == Some(x)
                        ==> (exists|y: RerankerConfig| merged.reranker == Some(y)
                            && reranker_config_eq(y, x)))
            })
            &&& merged.git_watch == l.git_watch
        },
    }
}

/// Holds the global, local and merged configurations, and where the files
/// live.
pub struct ConfigManager {
    pub global_config: Config,
    pub local_config: Option<Config>,
    pub merged_config: Config,
    pub global_config_path: Vec<u8>,
    pub local_config_path: Option<Vec<u8>>,
}

impl ConfigManager {
    /// Build the manager from the resolved global and local configurations
    /// (file reading and parsing happen before this).  The merged
    /// configuration takes each local value where one is given.
    pub fn new(global_config: Config, local_config: Option<Config>, global_config_path: Vec<u8>, local_config_path: Option<Vec<u8>>) -> (r: ConfigManager)
        ensures
            r.global_config == global_config,
            r.local_config == local_config,
            is_merged(r.merged_config, global_config, local_config),
            r.global_config_path == global_config_path,
            r.local_config_path == local_config_path,
    {
        let merged_config: Config = match &local_config {
            None => global_config.duplicate(),
            Some(l) => {
                let model_cache_dir: Option<Vec<u8>> = match &l.model_cache_dir {
                    Some(u) => Some(vstd::slice::slice_to_vec(u.as_slice())),
                    None => match &global_config.model_cache_dir {
                        Some(u) => Some(vstd::slice::slice_to_vec(u.as_slice())),
                        None => None,
                    },
                };
                let reranker: Option<RerankerConfig> = match &l.reranker {
                    Some(x) => Some(x.duplicate()),
                    None => match &global_config.reranker {
                        Some(x) => Some(x.duplicate()),
                        None => None,
                    },
                };
                Config { model_cache_dir, reranker, git_watch: l.git_watch.duplicate() }
            },
        };
        ConfigManager {
            global_config,
            local_config,
            merged_config,
            global_config_path,
            local_config_path,
        }
    }

    /// The directory models are cached in: the local override, else the
    /// global one, else the given system default.
    pub fn get_model_cache_dir(&self, default_dir: Vec<u8>) -> (r: Vec<u8>)
        ensures
            r@ == (match self.local_config {
                Some(l) if l.model_cache_dir is Some => l.model_cache_dir->0@,
                _ => match self.global_config.model_cache_dir {
                    Some(g) => g@,
                    None => default_dir@,
                },
            }),
    {
        match &self.local_config {
            Some(l) => match &l.model_cache_dir {
                Some(u) => {
                    return vstd::slice::slice_to_vec(u.as_slice());
                },
                None => {},
            },
            None => {},
        }
        match &self.global_config.model_cache_dir {
            Some(u) => vstd::slice::slice_to_vec(u.as_slice()),
            None => default_dir,
        }
    }

    /// The reranker settings: the local ones if the local file has any,
    /// else the global ones.
    pub fn get_reranker_config(&self) -> (r: Option<RerankerConfig>)
        ensures
            match self.local_config {
                Some(l) if l.reranker is Some => (r matches Some(y)
                    && reranker_config_eq(y, l.reranker->0)),
                _ => match self.global_config.reranker {
                    Some(g) => (r matches Some(y) && reranker_config_eq(y, g)),
                    None => r is None,
                },
            },
    {
        match &self.local_config {
            Some(l) => match &l.reranker {
                Some(x) => {
                    return Some(x.duplicate());
                },
                None => {},
            },
            None => {},
        }
        match &self.global_config.reranker {
            Some(x) => Some(x.duplicate()),
            None => None,
        }
    }

    /// The merged configuration.
    pub fn config(&self) -> (r: &Config)
        ensures
            *r == self.merged_config,
    {
        &self.merged_config
    }
}

} // verus!
