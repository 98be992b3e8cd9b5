use vstd::prelude::*;

verus! {

/// The three ways in which registering a pattern can fail.
#[derive(Debug, Clone, Copy, PartialEq, Eq, Structural)]
pub enum ErrorKind {
    /// The pattern breaks the syntax: no leading `/`, an empty capture or wildcard
    /// name, a wildcard before the last segment, or a wildcard on a nested prefix.
    MalformedPattern,
    /// The router already holds its maximum number of routes, or the pattern has
    /// too many segments.
    CapacityExceeded,
    /// The pattern cannot be told apart from a registered one, or shadows it.
    Collision,
}

/// Why a pattern was refused: its kind and a human-readable reason.
#[derive(Debug, Clone, Copy)]
pub struct RouterError {
    kind: ErrorKind,
    msg: &'static str,
}

impl RouterError {
    /// The kind of this error.
    pub closed spec fn spec_kind(&self) -> ErrorKind {
        self.kind
    }

    /// The human-readable reason.
    pub closed spec fn spec_message(&self) -> Seq<char> {
        self.msg@
    }

    /// An error of the given kind with the given reason.
    pub fn new(kind: ErrorKind, msg: &'static str) -> (r: RouterError)
        ensures
            r.spec_kind() == kind,
            r.spec_message() == msg@,
    {
        RouterError { kind, msg }
    }

    /// The kind of this error.
    pub fn kind(&self) -> (r: ErrorKind)
        ensures
            r == self.spec_kind(),
    {
        self.kind
    }

    /// The human-readable reason.
    pub fn message(&self) -> (r: &'static str)
        ensures
            r@ == self.spec_message(),
    {
        self.msg
    }

    /// The reason as an owned string.
    pub fn to_string(&self) -> (r: String)
        ensures
            r@ == self.spec_message(),
    {
        self.msg.to_owned()
    }
}

} // verus!
