use vstd::prelude::*;

verus! {

/// The command handed to the command-line client is not one it knows.
#[derive(Clone, Debug)]
pub struct InvalidCommandError;

/// A remote call came back with an error status.
#[derive(Clone, Debug)]
pub struct ErrorStatusError {
    description: String,
}

impl ErrorStatusError {
    /// The status description this error was created with.
    pub closed spec fn spec_description(self) -> Seq<char> {
        self.description@
    }

    /// Keeps the status description for later display by the client.
    pub fn new(description: &str) -> (e: ErrorStatusError)
        ensures
            e.spec_description() == description@,
    {
        ErrorStatusError { description: description.to_owned() }
    }

    /// The status description this error was created with.
    pub fn description(&self) -> (d: &str)
        ensures
            d@ == self.spec_description(),
    {
        self.description.as_str()
    }
}

} // verus!
