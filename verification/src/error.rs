use vstd::prelude::*;

verus! {

/// Which check refused an operation.
#[derive(Debug, Clone, Copy, PartialEq, Eq, Structural)]
pub enum Stage {
    /// The size of the input in bytes.
    InputSize,
    /// An estimate of what opening the input would cost.
    SizeEstimate,
    /// The structural pre-scan.
    Prescan,
    /// The number of pages.
    PageCount,
    /// The number of pixels a render would allocate.
    Pixels,
    /// Wall-clock time.
    Duration,
    /// Memory measured after the work.
    Memory,
}

/// Every way an operation can refuse.
///
/// Messages are fixed text chosen by this library: nothing read from a document is ever
/// copied into one.
#[derive(Debug)]
pub enum Error {
    /// The input is not a readable document.
    Malformed(String),
    /// The input uses something this library does not handle.
    Unsupported(String),
    /// The input is encrypted and no working password was given.
    PasswordRequired,
    /// A ceiling was exceeded.
    LimitExceeded { limit: &'static str, stage: Stage, requested: u64, allowed: u64 },
    /// The caller asked for something that cannot be done.
    InvalidArgument(String),
    /// Reading or writing failed.
    Io(String),
    /// This library or an engine contradicted itself.
    Internal(String),
}

impl Error {
    /// The text the error carries: its message, or the name of the exceeded limit; nothing
    /// for a missing password.
    pub open spec fn text(&self) -> Seq<char> {
        match self {
            Error::Malformed(m) => m@,
            Error::Unsupported(m) => m@,
            Error::InvalidArgument(m) => m@,
            Error::Io(m) => m@,
            Error::Internal(m) => m@,
            Error::LimitExceeded { limit, .. } => limit@,
            Error::PasswordRequired => Seq::empty(),
        }
    }

    /// The text the error carries, as a string.
    pub fn message(&self) -> (s: String)
        ensures
            s@ == self.text(),
    {
        match self {
            Error::Malformed(m) => m.clone(),
            Error::Unsupported(m) => m.clone(),
            Error::InvalidArgument(m) => m.clone(),
            Error::Io(m) => m.clone(),
            Error::Internal(m) => m.clone(),
            Error::LimitExceeded { limit, .. } => (*limit).to_owned(),
            Error::PasswordRequired => String::new(),
        }
    }
}

/// The result type every operation returns.
pub type Result<T> = core::result::Result<T, Error>;

/// A `Malformed` refusal carrying `message`.
pub fn malformed(message: &str) -> (e: Error)
    ensures
        e is Malformed,
        e->Malformed_0@ == message@,
{
    Error::Malformed(message.to_owned())
}

/// An `Unsupported` refusal carrying `message`.
pub fn unsupported(message: &str) -> (e: Error)
    ensures
        e is Unsupported,
        e->Unsupported_0@ == message@,
{
    Error::Unsupported(message.to_owned())
}

/// An `InvalidArgument` refusal carrying `message`.
pub fn invalid_argument(message: &str) -> (e: Error)
    ensures
        e is InvalidArgument,
        e->InvalidArgument_0@ == message@,
{
    Error::InvalidArgument(message.to_owned())
}

/// An `Internal` error carrying `message`.
pub fn internal(message: &str) -> (e: Error)
    ensures
        e is Internal,
        e->Internal_0@ == message@,
{
    Error::Internal(message.to_owned())
}

/// An `Io` error carrying `message`.
pub fn io(message: &str) -> (e: Error)
    ensures
        e is Io,
        e->Io_0@ == message@,
{
    Error::Io(message.to_owned())
}

} // verus!
