use crate::error::AppError;
use vstd::prelude::*;

verus! {

/// A resolved configuration snapshot.
///
/// The caller resolves it once (from a file, then environment overrides via
/// [`Config::with_overrides`]) and passes it by value at each submission, so
/// that later changes never affect an in-flight operation.
#[derive(Debug, Clone)]
pub struct Config {
    pub api_key: Option<String>,
    pub base_url: Option<String>,
    pub timeout: Option<u64>,
    pub default_link_domain: Option<String>,
    pub default_text_domain: Option<String>,
    pub default_file_domain: Option<String>,
}

impl Default for Config {
    /// The empty snapshot: nothing configured, every accessor at its default.
    fn default() -> (r: Config)
        ensures
            r.api_key is None,
            r.base_url is None,
            r.timeout is None,
            r.default_link_domain is None,
            r.default_text_domain is None,
            r.default_file_domain is None,
    {
        Config {
            api_key: None,
            base_url: None,
            timeout: None,
            default_link_domain: None,
            default_text_domain: None,
            default_file_domain: None,
        }
    }
}

impl Config {
    /// Layers overrides on top of this snapshot: a `Some` replaces the
    /// field, a `None` leaves it as it was. Mirrors the precedence
    /// "file first, environment on top".
    pub fn with_overrides(
        self,
        api_key: Option<String>,
        base_url: Option<String>,
        timeout: Option<u64>,
    ) -> (r: Config)
        ensures
            r.api_key == (if api_key is Some { api_key } else { self.api_key }),
            r.base_url == (if base_url is Some { base_url } else { self.base_url }),
            r.timeout == (if timeout is Some { timeout } else { self.timeout }),
            r.default_link_domain == self.default_link_domain,
            r.default_text_domain == self.default_text_domain,
            r.default_file_domain == self.default_file_domain,
    {
        Config {
            api_key: (if api_key.is_some() { api_key } else { self.api_key }),
            base_url: (if base_url.is_some() { base_url } else { self.base_url }),
            timeout: (if timeout.is_some() { timeout } else { self.timeout }),
            default_link_domain: self.default_link_domain,
            default_text_domain: self.default_text_domain,
            default_file_domain: self.default_file_domain,
        }
    }

    /// The configured credential, if any.
    pub fn api_key(&self) -> (r: Option<&str>)
        ensures
            match self.api_key {
                Some(k) => r matches Some(s) && s@ == k@,
                None => r is None,
            },
    {
        match &self.api_key {
            Some(k) => Some(k.as_str()),
            None => None,
        }
    }

    /// The endpoint, or the well-known default when none is configured.
    pub fn base_url(&self) -> (r: &str)
        ensures
            match self.base_url {
                Some(u) => r@ == u@,
                None => r@ == "https://s.ee/api/v1"@,
            },
    {
        match &self.base_url {
            Some(u) => u.as_str(),
            None => "https://s.ee/api/v1",
        }
    }

    /// The request timeout in seconds, defaulting to 30.
    pub fn timeout(&self) -> (r: u64)
        ensures
            match self.timeout {
                Some(t) => r == t,
                None => r == 30,
            },
    {
        match self.timeout {
            Some(t) => t,
            None => 30,
        }
    }

    /// The preferred domain for new short links, if any.
    pub fn default_link_domain(&self) -> (r: Option<&str>)
        ensures
            match self.default_link_domain {
                Some(d) => r matches Some(s) && s@ == d@,
                None => r is None,
            },
    {
        match &self.default_link_domain {
            Some(d) => Some(d.as_str()),
            None => None,
        }
    }

    /// The preferred domain for new text snippets, if any.
    pub fn default_text_domain(&self) -> (r: Option<&str>)
        ensures
            match self.default_text_domain {
                Some(d) => r matches Some(s) && s@ == d@,
                None => r is None,
            },
    {
        match &self.default_text_domain {
            Some(d) => Some(d.as_str()),
            None => None,
        }
    }

    /// The preferred domain for new file uploads, if any.
    pub fn default_file_domain(&self) -> (r: Option<&str>)
        ensures
            match self.default_file_domain {
                Some(d) => r matches Some(s) && s@ == d@,
                None => r is None,
            },
    {
        match &self.default_file_domain {
            Some(d) => Some(d.as_str()),
            None => None,
        }
    }

    /// Where the configuration document lives under the platform
    /// configuration directory, or a `Config` error when the platform
    /// offers none.
    pub fn config_file_path() -> (r: Result<String, AppError>)
        ensures
            r matches Ok(p) ==> p@.len() >= 16 && p@.skip(p@.len() - 16) == "/see/config.toml"@,
            r matches Err(e) ==> e is Config,
    {
        let base = os_config_dir();
        match base {
            Some(b) => {
                let p = b.concat("/see/config.toml");
                proof {
                    reveal_strlit("/see/config.toml");
                    assert(p@.skip(p@.len() - 16) =~= "/see/config.toml"@);
                }
                Ok(p)
            },
            None => Err(AppError::Config(String::from_str(
                "Could not determine config directory",
            ))),
        }
    }

    /// Where the history ledger lives under the platform data directory,
    /// or a `Config` error when the platform offers none.
    pub fn history_file_path() -> (r: Result<String, AppError>)
        ensures
            r matches Ok(p) ==> p@.len() >= 17 && p@.skip(p@.len() - 17) == "/see/history.json"@,
            r matches Err(e) ==> e is Config,
    {
        let base = os_data_dir();
        match base {
            Some(b) => {
                let p = b.concat("/see/history.json");
                proof {
                    reveal_strlit("/see/history.json");
                    assert(p@.skip(p@.len() - 17) =~= "/see/history.json"@);
                }
                Ok(p)
            },
            None => Err(AppError::Config(String::from_str(
                "Could not determine data directory",
            ))),
        }
    }
}

/// Relies on directories::BaseDirs::config_dir. The result depends on the
/// environment, so nothing is promised of it.
#[verifier::external_body]
fn os_config_dir() -> Option<String> {
    directories::BaseDirs::new().map(|d| d.config_dir().to_string_lossy().into_owned())
}

/// Relies on directories::BaseDirs::data_dir. The result depends on the
/// environment, so nothing is promised of it.
#[verifier::external_body]
fn os_data_dir() -> Option<String> {
    directories::BaseDirs::new().map(|d| d.data_dir().to_string_lossy().into_owned())
}

} // verus!
