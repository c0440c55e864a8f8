//! The run configuration and its construction from raw arguments.

use vstd::prelude::*;
use vstd::string::*;

verus! {

/// Why a configuration could not be assembled.
#[derive(Clone, Copy, Debug, PartialEq, Eq, Structural)]
pub enum ConfigError {
    /// No argument was left for the query.
    MissingQuery,
    /// The query was there, but no argument was left for the file path.
    MissingFilePath,
}

impl ConfigError {
    /// The description of the error, as a text.
    pub open spec fn description(self) -> Seq<char> {
        match self {
            ConfigError::MissingQuery => "Failed to parse query argument."@,
            ConfigError::MissingFilePath => "Failed to parse file path argument."@,
        }
    }

    /// A description of the error for the user.
    pub fn message(&self) -> (text: &'static str)
        ensures
            text@ == self.description(),
    {
        match self {
            ConfigError::MissingQuery => "Failed to parse query argument.",
            ConfigError::MissingFilePath => "Failed to parse file path argument.",
        }
    }
}

/// What one run needs to know: what to look for, where, and how.
#[derive(Debug)]
pub struct Config {
    /// The text to search for.
    pub query: String,
    /// The path of the file to search in.
    pub file_path: String,
    /// Whether letter case is ignored when matching.
    pub ignore_case: bool,
}

impl Config {
    /// Assembles a configuration from the raw arguments of the program and
    /// the switch that makes the search ignore letter case.
    ///
    /// The first argument is the program's own name and is skipped. The next
    /// two are the query and the file path, in that order; what follows them
    /// is ignored. Where one of the two is missing, the error says which:
    /// the query if both are, else the file path.
    pub fn build(args: &[String], ignore_case: bool) -> (built: Result<Config, ConfigError>)
        ensures
            match built {
                Ok(config) => {
                    &&& args@.len() >= 3
                    &&& config.query@ == args@[1]@
                    &&& config.file_path@ == args@[2]@
                    &&& config.ignore_case == ignore_case
                },
                Err(ConfigError::MissingQuery) => args@.len() <= 1,
                Err(ConfigError::MissingFilePath) => args@.len() == 2,
            },
    {
        if args.len() < 2 {
            return Err(ConfigError::MissingQuery);
        }
        if args.len() < 3 {
            return Err(ConfigError::MissingFilePath);
        }
        Ok(Config { query: args[1].clone(), file_path: args[2].clone(), ignore_case })
    }
}

} // verus!
