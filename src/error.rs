use vstd::prelude::*;

verus! {

/// The kinds of failure that an editing operation can report.
#[derive(Debug, Clone, Copy, PartialEq, Eq, Structural)]
pub enum FmsErrType {
    Default,
    Deprecated,
    Range,
    Overwrite,
    SplitChunk,
    Type,
    JSON,
    IO,
    Vlq,
    StringFromUTF8,
    Slice,
}

/// A failed operation: its kind and, where one was given, a reason in words.
#[derive(Debug)]
pub struct Error {
    pub err_type: FmsErrType,
    pub err_msg: Option<String>,
}

impl Default for Error {
    fn default() -> (r: Self)
        ensures
            r.err_type == FmsErrType::Default,
            r.err_msg is None,
    {
        Error { err_type: FmsErrType::Default, err_msg: None }
    }
}

impl Error {
    pub fn new(err_type: FmsErrType) -> (r: Self)
        ensures
            r.err_type == err_type,
            r.err_msg is None,
    {
        Error { err_type, err_msg: None }
    }

    pub fn from_reason(err_type: FmsErrType, reason: &str) -> (r: Self)
        ensures
            r.err_type == err_type,
            r.err_msg is Some,
            r.err_msg->0@ == reason@,
    {
        Error { err_type, err_msg: Some(reason.to_owned()) }
    }
}

} // verus!
