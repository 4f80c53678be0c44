//! The stored settings and where the API key comes from.

use vstd::prelude::*;

verus! {

/// The settings kept in the configuration file.
pub struct Config {
    pub api_key: Option<String>,
}

impl Default for Config {
    /// Settings with no API key.
    fn default() -> (c: Config)
        ensures
            c.api_key is None,
    {
        Config { api_key: None }
    }
}

impl Config {
    /// Settings that hold the API key `key`.
    pub fn with_api_key(key: String) -> (c: Config)
        ensures
            c.api_key matches Some(k) && k@ == key@,
    {
        Config { api_key: Some(key) }
    }
}

/// The API key to use, and whether it must be written to the configuration
/// file.
pub struct ApiKey {
    pub key: Option<String>,
    pub save: bool,
}

/// The first of the given keys that is present, in the order of precedence:
/// the command line, then the configuration file, then the environment.
pub open spec fn chosen_key(
    cli_key: Option<Seq<char>>,
    config_key: Option<Seq<char>>,
    env_key: Option<Seq<char>>,
) -> Option<Seq<char>> {
    match cli_key {
        Some(k) => Some(k),
        None => match config_key {
            Some(k) => Some(k),
            None => env_key,
        },
    }
}

/// Chooses the API key (`get_api_key`): a key given on the command line wins
/// and is to be saved in the configuration file; otherwise the key stored in
/// the configuration file; otherwise the `HACKCLUB_API_KEY` environment
/// variable. `config_key` is `None` when the file is missing, unreadable or
/// holds no key.
pub fn get_api_key(
    cli_key: Option<String>,
    config_key: Option<String>,
    env_key: Option<String>,
) -> (r: ApiKey)
    ensures
        r.key.deep_view() == chosen_key(
            cli_key.deep_view(),
            config_key.deep_view(),
            env_key.deep_view(),
        ),
        r.save == cli_key is Some,
{
    match cli_key {
        Some(k) => ApiKey { key: Some(k), save: true },
        None => match config_key {
            Some(k) => ApiKey { key: Some(k), save: false },
            None => ApiKey { key: env_key, save: false },
        },
    }
}

} // verus!
