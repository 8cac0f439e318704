//! The configuration of one run, built from the command line.

use vstd::prelude::*;

verus! {

/// The argument that the command line lacks.
#[derive(Debug, Clone, Copy, PartialEq, Eq, Structural)]
pub enum MissingArgument {
    /// No query stands on the command line.
    Query,
    /// A query stands on the command line, but no file path after it.
    FilePath,
}

impl MissingArgument {
    /// The message for this error, as a sequence of characters.
    pub open spec fn message_text(self) -> Seq<char> {
        match self {
            MissingArgument::Query => "Didn't get a query string"@,
            MissingArgument::FilePath => "Didn't get a file path"@,
        }
    }

    /// The message that tells the user which argument is missing.
    pub fn message(&self) -> (text: &'static str)
        ensures
            text@ == self.message_text(),
    {
        match self {
            MissingArgument::Query => "Didn't get a query string",
            MissingArgument::FilePath => "Didn't get a file path",
        }
    }
}

/// The two messages differ, so the message alone tells the errors apart.
pub proof fn lemma_messages_differ()
    ensures
        MissingArgument::Query.message_text() != MissingArgument::FilePath.message_text(),
{
    reveal_strlit("Didn't get a query string");
    reveal_strlit("Didn't get a file path");
    assert("Didn't get a query string"@.len() != "Didn't get a file path"@.len());
}

/// What one run searches for, where, and how.
#[derive(Debug)]
pub struct Config {
    /// The text to search for.
    pub query: String,
    /// The path of the file to search in.
    pub file_name: String,
    /// Whether the search ignores case.
    pub ignore_case: bool,
}

impl Config {
    /// Builds the configuration from the arguments of the process and from
    /// the value of the environment variable that asks to ignore case, where
    /// that variable is set.
    ///
    /// The first argument, the program's name, is passed over. The second is
    /// the query and the third the file path; further arguments are ignored.
    /// The search ignores case exactly when the variable is set, whatever
    /// its value.
    pub fn new(args: &[String], ignore_case_flag: Option<&str>) -> (built: Result<
        Config,
        MissingArgument,
    >)
        ensures
            match built {
                Ok(config) => {
                    &&& args@.len() >= 3
                    &&& config.query@ == args@[1]@
                    &&& config.file_name@ == args@[2]@
                    &&& config.ignore_case == ignore_case_flag.is_some()
                },
                Err(MissingArgument::Query) => args@.len() < 2,
                Err(MissingArgument::FilePath) => args@.len() == 2,
            },
    {
        if args.len() < 2 {
            return Err(MissingArgument::Query);
        }
        if args.len() < 3 {
            return Err(MissingArgument::FilePath);
        }
        Ok(
            Config {
                query: args[1].clone(),
                file_name: args[2].clone(),
                ignore_case: ignore_case_flag.is_some(),
            },
        )
    }
}

} // verus!
