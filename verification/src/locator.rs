//! Resolution of the three on-disk paths the resolver works with.
//!
//! Given the process environment state (an explicit config-directory
//! override and a platform home directory, both handed in as plain
//! values), this derives the config file path, the sibling theme
//! directory, and the sibling hidden cache file, deterministically and
//! with no side effects.

use vstd::prelude::*;
use vstd::string::StringExecFns;

verus! {

/// Raised when neither the config-directory override nor the home
/// directory is available, so no paths can be derived.
#[derive(Debug, PartialEq, Eq, Structural, Clone, Copy)]
pub struct ConfigurationError;

/// The directory that holds the config file when only the home
/// directory is known, relative to that home directory.
pub open spec fn home_config_dir_suffix() -> Seq<char> {
    "/.config/zellij"@
}

/// The base directory the three paths are derived from: the override
/// when present, else the home directory extended by the platform
/// default config location.
pub open spec fn spec_base_dir(config_dir: Option<Seq<char>>, home: Option<Seq<char>>) -> Option<
    Seq<char>,
> {
    match config_dir {
        Some(d) => Some(d),
        None => match home {
            Some(h) => Some(h + home_config_dir_suffix()),
            None => None,
        },
    }
}

/// The three paths held by a `ThemeData`: config file, theme directory
/// and cache file, all directly inside the base directory.
pub struct ThemeData {
    config_path: String,
    theme_dir: String,
    cache_path: String,
}

impl ThemeData {
    pub closed spec fn view(&self) -> (Seq<char>, Seq<char>, Seq<char>) {
        (self.config_path@, self.theme_dir@, self.cache_path@)
    }

    pub open spec fn wf(&self, base: Seq<char>) -> bool {
        &&& self@.0 == base + "/config.kdl"@
        &&& self@.1 == base + "/themes"@
        &&& self@.2 == base + "/.theme_cache.json"@
    }

    /// Derives the three paths from the environment values, or reports
    /// that neither source of a base directory is available.
    pub fn new(config_dir: Option<String>, home: Option<String>) -> (r: Result<
        Self,
        ConfigurationError,
    >)
        ensures
            match spec_base_dir(
                match config_dir {
                    Some(ref d) => Some(d@),
                    None => None,
                },
                match home {
                    Some(ref h) => Some(h@),
                    None => None,
                },
            ) {
                Some(base) => r matches Ok(td) && td.wf(base),
                None => r matches Err(ConfigurationError),
            },
    {
        let base: String = match config_dir {
            Some(d) => d,
            None => match home {
                Some(h) => h.concat("/.config/zellij"),
                None => {
                    return Err(ConfigurationError);
                },
            },
        };
        let config_path = base.as_str().to_owned().concat("/config.kdl");
        let theme_dir = base.as_str().to_owned().concat("/themes");
        let cache_path = base.concat("/.theme_cache.json");
        Ok(ThemeData { config_path, theme_dir, cache_path })
    }

    pub fn config_path(&self) -> (r: &String)
        ensures
            r@ == self@.0,
    {
        &self.config_path
    }

    pub fn theme_dir(&self) -> (r: &String)
        ensures
            r@ == self@.1,
    {
        &self.theme_dir
    }

    pub fn cache_path(&self) -> (r: &String)
        ensures
            r@ == self@.2,
    {
        &self.cache_path
    }
}

} // verus!
