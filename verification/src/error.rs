//! The failures that can stop a run before generation starts.

use vstd::prelude::*;
use vstd::string::*;

verus! {

/// A startup failure. Each kind carries the message of whoever noticed it.
#[derive(Debug)]
pub enum MyError {
    /// The tile definitions could not be read.
    Io(String),
    /// The tile definitions were read but are malformed.
    Json(String),
    /// Anything else, such as a window or a texture that could not be made.
    Other(String),
}

impl MyError {
    /// The line a user is shown for this failure.
    pub open spec fn text(self) -> Seq<char> {
        match self {
            MyError::Io(e) => "IO error: "@ + e@,
            MyError::Json(e) => "JSON error: "@ + e@,
            MyError::Other(e) => "Other error: "@ + e@,
        }
    }

    /// Renders the failure as the line a user is shown.
    pub fn message(&self) -> (line: String)
        ensures
            line@ == self.text(),
    {
        match self {
            MyError::Io(e) => String::from_str("IO error: ").concat(e.as_str()),
            MyError::Json(e) => String::from_str("JSON error: ").concat(e.as_str()),
            MyError::Other(e) => String::from_str("Other error: ").concat(e.as_str()),
        }
    }
}

impl From<String> for MyError {
    fn from(error: String) -> (r: MyError) {
        MyError::Other(error)
    }
}

impl vstd::std_specs::convert::FromSpecImpl<String> for MyError {
    open spec fn obeys_from_spec() -> bool {
        true
    }

    open spec fn from_spec(error: String) -> MyError {
        MyError::Other(error)
    }
}

} // verus!
