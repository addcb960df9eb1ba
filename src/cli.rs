//! The command line: its options and subcommands.
use vstd::prelude::*;

verus! {

/// The options and subcommand of one invocation.
pub struct Cli {
    pub command: Commands,
    /// A configuration file to read instead of the usual sources.
    pub config: Option<String>,
    /// Log at debug level.
    pub verbose: bool,
}

/// What an invocation does.
pub enum Commands {
    /// Fetch JSON from a URL and show it or save it to a file.
    Fetch { url: String, format: Option<OutputFormat>, output: Option<String> },
    /// Store a JSON value under a key; with `file`, `value` names a file that holds it.
    Store { key: String, value: String, file: bool },
    /// Show the value stored under a key.
    Get { key: String, format: Option<OutputFormat> },
    /// List the stored keys.
    List { detailed: bool },
    /// Delete the record of a key.
    Delete { key: String },
    /// Write or show the configuration.
    Config { action: ConfigAction },
}

/// What the `config` subcommand does.
pub enum ConfigAction {
    /// Write the configuration to a file.
    Init { output: Option<String> },
    /// Show the configuration.
    Show,
}

/// How a JSON value is shown.
#[derive(Clone, Copy, Debug, PartialEq, Eq, Structural)]
pub enum OutputFormat {
    Json,
    Yaml,
    Pretty,
}

impl OutputFormat {
    /// The format used when none is asked for.
    pub fn or_default(format: Option<OutputFormat>) -> (r: OutputFormat)
        ensures
            format matches Some(f) ==> r == f,
            format is None ==> r == OutputFormat::Pretty,
    {
        match format {
            Some(f) => f,
            None => OutputFormat::Pretty,
        }
    }
}

} // verus!
