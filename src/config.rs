use vstd::prelude::*;

verus! {

/// Least severity of the log lines that are kept.
#[derive(Debug, Clone, Copy, PartialEq, Eq, Structural)]
pub enum LogLevel {
    Off,
    Error,
    Warn,
    Info,
    Debug,
    Trace,
}

/// Where and how much to log.
#[derive(Debug, Clone)]
pub struct LoggerOptions {
    pub log_level: LogLevel,
    /// File that receives a copy of the log, replaced at start.
    pub log_file: Option<String>,
}

impl Default for LoggerOptions {
    fn default() -> (r: Self)
        ensures
            r.log_level == LogLevel::Info,
            r.log_file matches Some(p) && p@ == "./output.log"@,
    {
        LoggerOptions { log_level: LogLevel::Info, log_file: Some("./output.log".to_owned()) }
    }
}

/// Whether discovery is used when the configuration does not say: it is not.
pub fn f() -> (r: bool)
    ensures
        r == false,
{
    false
}

/// Settings of the proxy process.
#[derive(Debug, Clone)]
pub struct Config {
    pub logger: LoggerOptions,
    /// Backend host name, or the domain whose service records name the backends.
    pub target: String,
    /// Whether backends are found through service records.
    pub srv: bool,
    /// Local address to listen on.
    pub bind: String,
}

} // verus!
