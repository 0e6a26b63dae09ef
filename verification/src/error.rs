use vstd::prelude::*;

verus! {

/// A structure that contradicts itself or its authority.
#[derive(Clone, Copy, Debug)]
pub struct CorruptionDetail {
    pub structure: &'static str,
    pub reason: &'static str,
}

/// A caller argument that cannot be accepted.
#[derive(Clone, Copy, Debug)]
pub struct ArgDetail {
    pub argument: &'static str,
    pub reason: &'static str,
}

/// A hard budget that an operation would exceed.
#[derive(Clone, Copy, Debug)]
pub struct LimitDetail {
    pub name: &'static str,
    pub actual: u64,
    pub maximum: u64,
}

/// An operation that this configuration does not offer.
#[derive(Clone, Copy, Debug)]
pub struct OpDetail {
    pub operation: &'static str,
    pub reason: &'static str,
}

impl CorruptionDetail {
    pub fn structure(&self) -> (structure: &'static str)
        ensures
            structure == self.structure,
    {
        self.structure
    }

    pub fn reason(&self) -> (reason: &'static str)
        ensures
            reason == self.reason,
    {
        self.reason
    }
}

impl ArgDetail {
    pub fn argument(&self) -> (argument: &'static str)
        ensures
            argument == self.argument,
    {
        self.argument
    }

    pub fn reason(&self) -> (reason: &'static str)
        ensures
            reason == self.reason,
    {
        self.reason
    }
}

impl LimitDetail {
    pub fn name(&self) -> (name: &'static str)
        ensures
            name == self.name,
    {
        self.name
    }

    pub fn actual(&self) -> (actual: u64)
        ensures
            actual == self.actual,
    {
        self.actual
    }

    pub fn maximum(&self) -> (maximum: u64)
        ensures
            maximum == self.maximum,
    {
        self.maximum
    }
}

impl OpDetail {
    pub fn operation(&self) -> (operation: &'static str)
        ensures
            operation == self.operation,
    {
        self.operation
    }

    pub fn reason(&self) -> (reason: &'static str)
        ensures
            reason == self.reason,
    {
        self.reason
    }
}

#[derive(Clone, Copy, Debug)]
pub enum Error {
    Io,
    Poisoned,
    Corruption(CorruptionDetail),
    InvalidArgument(ArgDetail),
    ResourceExhausted(LimitDetail),
    Unsupported(OpDetail),
}

#[derive(Clone, Copy, Debug, PartialEq, Eq, Structural)]
pub enum ErrorKind {
    Io,
    Poisoned,
    Corruption,
    InvalidArgument,
    ResourceExhausted,
    Unsupported,
}

pub type Result<T> = core::result::Result<T, Error>;

pub open spec fn corruption(structure: &'static str, reason: &'static str) -> Error {
    Error::Corruption(CorruptionDetail { structure, reason })
}

pub open spec fn invalid(argument: &'static str, reason: &'static str) -> Error {
    Error::InvalidArgument(ArgDetail { argument, reason })
}

pub open spec fn limit(name: &'static str, actual: u64, maximum: u64) -> Error {
    Error::ResourceExhausted(LimitDetail { name, actual, maximum })
}

pub open spec fn unsupported(operation: &'static str, reason: &'static str) -> Error {
    Error::Unsupported(OpDetail { operation, reason })
}

/// Whether a result holds the list, or the refusal, that is expected.
pub open spec fn lists<T>(found: Result<Vec<T>>, expected: Result<Seq<T>>) -> bool {
    match (found, expected) {
        (Ok(list), Ok(view)) => list@ == view,
        (Err(e), Err(f)) => e == f,
        _ => false,
    }
}

/// Whether a check fails with the refusal that is expected, and only then.
pub open spec fn refuses<T>(found: Result<T>, expected: Option<Error>) -> bool {
    match expected {
        Some(e) => found matches Err(f) && f == e,
        None => found is Ok,
    }
}

impl Error {
    pub open spec fn spec_kind(self) -> ErrorKind {
        match self {
            Error::Io => ErrorKind::Io,
            Error::Poisoned => ErrorKind::Poisoned,
            Error::Corruption(_) => ErrorKind::Corruption,
            Error::InvalidArgument(_) => ErrorKind::InvalidArgument,
            Error::ResourceExhausted(_) => ErrorKind::ResourceExhausted,
            Error::Unsupported(_) => ErrorKind::Unsupported,
        }
    }

    pub fn corruption(structure: &'static str, reason: &'static str) -> (e: Error)
        ensures
            e == corruption(structure, reason),
    {
        Error::Corruption(CorruptionDetail { structure, reason })
    }

    pub fn invalid(argument: &'static str, reason: &'static str) -> (e: Error)
        ensures
            e == invalid(argument, reason),
    {
        Error::InvalidArgument(ArgDetail { argument, reason })
    }

    pub fn limit(name: &'static str, actual: u64, maximum: u64) -> (e: Error)
        ensures
            e == limit(name, actual, maximum),
    {
        Error::ResourceExhausted(LimitDetail { name, actual, maximum })
    }

    pub fn unsupported(operation: &'static str, reason: &'static str) -> (e: Error)
        ensures
            e == unsupported(operation, reason),
    {
        Error::Unsupported(OpDetail { operation, reason })
    }

    pub fn kind(&self) -> (kind: ErrorKind)
        ensures
            kind == self.spec_kind(),
    {
        match self {
            Error::Io => ErrorKind::Io,
            Error::Poisoned => ErrorKind::Poisoned,
            Error::Corruption(_) => ErrorKind::Corruption,
            Error::InvalidArgument(_) => ErrorKind::InvalidArgument,
            Error::ResourceExhausted(_) => ErrorKind::ResourceExhausted,
            Error::Unsupported(_) => ErrorKind::Unsupported,
        }
    }
}

/// Every error is of the kind that it is named after.
pub proof fn errors_have_their_kind(e: Error, kind: ErrorKind)
    requires
        kind == e.spec_kind(),
    ensures
        kind is Io <==> e is Io,
        kind is Poisoned <==> e is Poisoned,
        kind is Corruption <==> e is Corruption,
        kind is InvalidArgument <==> e is InvalidArgument,
        kind is ResourceExhausted <==> e is ResourceExhausted,
        kind is Unsupported <==> e is Unsupported,
{
}

} // verus!
