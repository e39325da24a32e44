//! The settings of the program: what the command line or the configuration
//! file gives, and the values that stand in for what they leave out.

use vstd::prelude::*;

verus! {

/// The seconds between two announcements where none are given.
pub const DEFAULT_PERIOD_SECS: u64 = 895;

/// The seconds that fetching the description may take to connect.
pub const DEFAULT_CONNECT_TIMEOUT_SECS: u64 = 2;

/// The seconds that the proxy may take to connect to the origin.
pub const DEFAULT_PROXY_TIMEOUT_SECS: u64 = 10;

/// The seconds that a proxied stream may stay silent.
pub const DEFAULT_STREAM_TIMEOUT_SECS: u64 = 300;

/// How much is logged.
#[derive(Debug, Clone, Copy, PartialEq, Eq, Structural)]
pub enum Verbosity {
    Warn,
    Info,
    Debug,
    Trace,
}

/// The settings as they are given: every one may be left out.
pub struct RawConfig {
    pub description_url: Option<String>,
    pub period: Option<u64>,
    pub proxy: Option<String>,
    pub verbose: Option<u8>,
    pub iface: Option<String>,
    pub wait: Option<u64>,
    pub connect_timeout: Option<u64>,
    pub proxy_timeout: Option<u64>,
    pub stream_timeout: Option<u64>,
}

/// The settings that the program runs with. Times are in seconds.
pub struct Config {
    pub description_url: String,
    pub period: u64,
    pub proxy: Option<String>,
    pub broadcast_iface: Option<String>,
    pub verbose: Verbosity,
    pub wait: Option<u64>,
    pub connect_timeout: u64,
    pub proxy_timeout: u64,
    pub stream_timeout: u64,
}

/// Why the settings cannot be used.
#[derive(Debug, Clone, Copy, PartialEq, Eq, Structural)]
pub enum ConfigError {
    /// The address of the server's description is not given.
    MissingDescriptionUrl,
}

impl ConfigError {
    /// A description for the user.
    pub fn message(&self) -> (s: &'static str)
        ensures
            s@ == "Missing description URL"@,
    {
        "Missing description URL"
    }
}

/// The verbosity for a count of `-v` flags: none is `Warn`, one `Info`, two
/// `Debug`, and every higher count `Trace`; `Warn` where no count is given.
pub open spec fn verbosity_of(count: Option<u8>) -> Verbosity {
    match count {
        None => Verbosity::Warn,
        Some(n) => if n == 0 {
            Verbosity::Warn
        } else if n == 1 {
            Verbosity::Info
        } else if n == 2 {
            Verbosity::Debug
        } else {
            Verbosity::Trace
        },
    }
}

/// A value that is given, or the one that stands in for it.
pub open spec fn given_or(value: Option<u64>, default: u64) -> u64 {
    match value {
        Some(v) => v,
        None => default,
    }
}

/// Maps a count of `-v` flags to a verbosity.
pub fn verbosity(count: Option<u8>) -> (v: Verbosity)
    ensures
        v == verbosity_of(count),
{
    match count {
        None => Verbosity::Warn,
        Some(0) => Verbosity::Warn,
        Some(1) => Verbosity::Info,
        Some(2) => Verbosity::Debug,
        Some(_) => Verbosity::Trace,
    }
}

/// Completes the settings. The address of the description must be given;
/// everything else has a value that stands in for it, or may stay out.
pub fn get_config(raw: RawConfig) -> (r: Result<Config, ConfigError>)
    ensures
        match r {
            Ok(config) => raw.description_url == Some(config.description_url) && config.period
                == given_or(raw.period, DEFAULT_PERIOD_SECS) && config.proxy == raw.proxy
                && config.broadcast_iface == raw.iface && config.verbose == verbosity_of(
                raw.verbose,
            ) && config.wait == raw.wait && config.connect_timeout == given_or(
                raw.connect_timeout,
                DEFAULT_CONNECT_TIMEOUT_SECS,
            ) && config.proxy_timeout == given_or(raw.proxy_timeout, DEFAULT_PROXY_TIMEOUT_SECS)
                && config.stream_timeout == given_or(
                raw.stream_timeout,
                DEFAULT_STREAM_TIMEOUT_SECS,
            ),
            Err(e) => raw.description_url is None && e == ConfigError::MissingDescriptionUrl,
        },
{
    let description_url = match raw.description_url {
        Some(url) => url,
        None => {
            return Err(ConfigError::MissingDescriptionUrl);
        },
    };
    Ok(
        Config {
            description_url,
            period: raw.period.unwrap_or(DEFAULT_PERIOD_SECS),
            proxy: raw.proxy,
            broadcast_iface: raw.iface,
            verbose: verbosity(raw.verbose),
            wait: raw.wait,
            connect_timeout: raw.connect_timeout.unwrap_or(DEFAULT_CONNECT_TIMEOUT_SECS),
            proxy_timeout: raw.proxy_timeout.unwrap_or(DEFAULT_PROXY_TIMEOUT_SECS),
            stream_timeout: raw.stream_timeout.unwrap_or(DEFAULT_STREAM_TIMEOUT_SECS),
        },
    )
}

} // verus!
