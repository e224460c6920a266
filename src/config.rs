//! Parsing the command-line arguments into a search configuration.
use vstd::prelude::*;

verus! {

/// Why the arguments gave no configuration.
#[derive(Debug, Clone, Copy, PartialEq, Eq, Structural)]
pub enum ArgumentError {
    /// Only the program name was given.
    MissingQuery,
    /// The query was given, the file path was not.
    MissingFilePath,
}

impl ArgumentError {
    /// The message shown to the user for this error.
    pub fn message(&self) -> (r: &'static str)
        ensures
            *self == ArgumentError::MissingQuery ==> r@ == "Didn't get a query string"@,
            *self == ArgumentError::MissingFilePath ==> r@ == "Didn't get a file path"@,
    {
        match self {
            ArgumentError::MissingQuery => "Didn't get a query string",
            ArgumentError::MissingFilePath => "Didn't get a file path",
        }
    }
}

/// What to search for and where.
pub struct Config {
    pub query: String,
    pub file_path: String,
}

impl Config {
    /// Builds a configuration from the program's arguments. The first
    /// argument is the program name and is skipped; the next two are the
    /// query and the file path; any further ones are ignored. Neither value
    /// is checked beyond its presence.
    pub fn build(args: Vec<String>) -> (r: Result<Config, ArgumentError>)
        ensures
            match r {
                Ok(config) => args.len() >= 3 && config.query@ == args@[1]@
                    && config.file_path@ == args@[2]@,
                Err(e) => (args.len() < 2 && e == ArgumentError::MissingQuery) || (args.len()
                    == 2 && e == ArgumentError::MissingFilePath),
            },
    {
        let mut args = args;
        if args.len() < 2 {
            return Err(ArgumentError::MissingQuery);
        }
        if args.len() < 3 {
            return Err(ArgumentError::MissingFilePath);
        }
        let file_path = args.remove(2);
        let query = args.remove(1);
        Ok(Config { query, file_path })
    }
}

} // verus!
