//! The library's error type.
use vstd::prelude::*;

verus! {

/// What can go wrong in the library.  The outside errors (database, file
/// system, network) are carried as their message.
#[derive(Clone, Debug, PartialEq, Eq)]
pub enum ProxyNexusError {
    Database(String),
    Io(String),
    Network(String),
    Internal(String),
    /// A failure reported by its message alone.
    Message(String),
}

pub open spec fn error_text(e: ProxyNexusError) -> Seq<char> {
    match e {
        ProxyNexusError::Database(s) => "Database error: "@ + s@,
        ProxyNexusError::Io(s) => "IO error: "@ + s@,
        ProxyNexusError::Network(s) => "Network error: "@ + s@,
        ProxyNexusError::Internal(s) => "Internal error: "@ + s@,
        ProxyNexusError::Message(s) => s@,
    }
}

pub fn concat2(a: &str, b: &str) -> (r: String)
    ensures
        r@ == a@ + b@,
{
    let mut r = String::from_str(a);
    r.append(b);
    r
}

pub fn concat3(a: &str, b: &str, c: &str) -> (r: String)
    ensures
        r@ == a@ + b@ + c@,
{
    let mut r = String::from_str(a);
    r.append(b);
    r.append(c);
    r
}

impl ProxyNexusError {
    /// The text that the error displays.
    pub fn message(&self) -> (r: String)
        ensures
            r@ == error_text(*self),
    {
        match self {
            ProxyNexusError::Database(s) => concat2("Database error: ", s.as_str()),
            ProxyNexusError::Io(s) => concat2("IO error: ", s.as_str()),
            ProxyNexusError::Network(s) => concat2("Network error: ", s.as_str()),
            ProxyNexusError::Internal(s) => concat2("Internal error: ", s.as_str()),
            ProxyNexusError::Message(s) => s.clone(),
        }
    }
}

} // verus!
