//! Turning the engine's error codes into typed errors.
//!
//! 1. Failure is decided by the primary return value, then classified by the code.
//! 2. Classification is by code, never by prose.
//! 3. Messages are fixed constants: the engine's own text quotes object numbers and byte
//!    offsets, which are file content, so no message here carries a digit.

use vstd::prelude::*;

use crate::error::Error;

verus! {

/// No error.
pub const SUCCESS: i32 = 0i32;
/// A logic or programming error in the engine.
pub const INTERNAL: i32 = 1i32;
/// I/O or memory; on a buffer this library supplied, running off the end of it.
pub const SYSTEM: i32 = 2i32;
/// A feature the engine does not support.
pub const UNSUPPORTED: i32 = 3i32;
/// Encrypted, and the password did not work.
pub const PASSWORD: i32 = 4i32;
/// Syntax errors or other damage.
pub const DAMAGED_PDF: i32 = 5i32;
/// An unusable page structure.
pub const PAGES: i32 = 6i32;
/// A type or bounds error on an object.
pub const OBJECT: i32 = 7i32;
/// Malformed JSON.
pub const JSON: i32 = 8i32;
/// Linearization data that disagrees with the contents.
pub const LINEARIZATION: i32 = 9i32;

/// The warnings bit of a call's status.
pub const WARNINGS: i32 = 1i32;
/// The errors bit of a call's status.
pub const ERRORS: i32 = 2i32;

/// Whether a call's status has the errors bit set. A status with only the warnings bit is
/// success: every damaged file produces warnings.
pub fn has_errors(status: i32) -> (r: bool)
    ensures
        r == (status & ERRORS != 0),
        0 <= status <= 3 ==> (r <==> status >= 2),
{
    assert(0 <= status <= 3 ==> ((status & 2i32 != 0) <==> status >= 2)) by (bit_vector);
    status & ERRORS != 0
}

/// What kind of refusal a code maps to.
pub enum ErrorKind {
    Malformed,
    Unsupported,
    PasswordRequired,
    Internal,
}

/// The kind of refusal `code` stands for, on a call that failed.
pub open spec fn kind_of(code: i32) -> ErrorKind {
    if code == PASSWORD {
        ErrorKind::PasswordRequired
    } else if code == UNSUPPORTED {
        ErrorKind::Unsupported
    } else if code == SYSTEM || code == DAMAGED_PDF || code == PAGES || code == OBJECT || code == JSON
        || code == LINEARIZATION {
        ErrorKind::Malformed
    } else {
        ErrorKind::Internal
    }
}

/// Whether an error is of the kind `k`.
pub open spec fn is_kind(e: Error, k: ErrorKind) -> bool {
    match k {
        ErrorKind::Malformed => e is Malformed,
        ErrorKind::Unsupported => e is Unsupported,
        ErrorKind::PasswordRequired => e is PasswordRequired,
        ErrorKind::Internal => e is Internal,
    }
}

/// Whether a text holds an ASCII digit.
pub open spec fn has_digit(s: Seq<char>) -> bool {
    exists|i: int| 0 <= i < s.len() && '0' <= #[trigger] s[i] <= '9'
}

/// A fixed text, owned; its view is the literal's.
fn text(s: &str) -> (r: String)
    ensures
        r@ == s@,
{
    s.to_owned()
}

/// Map an engine error code to a typed error. Call only when the call's own return value has
/// already established failure: a zero code there is a contradiction, and is `Internal`.
pub fn map_code(code: i32) -> (e: Error)
    ensures
        is_kind(e, kind_of(code)),
        !has_digit(e.text()),
{
    let e = if code == SUCCESS {
        let m = "qpdf reported a failure with no error code; engine state is unknown";
        proof { reveal_strlit("qpdf reported a failure with no error code; engine state is unknown"); }
        Error::Internal(text(m))
    } else if code == PASSWORD {
        Error::PasswordRequired
    } else if code == DAMAGED_PDF {
        let m = "qpdf: the document is damaged";
        proof { reveal_strlit("qpdf: the document is damaged"); }
        Error::Malformed(text(m))
    } else if code == PAGES {
        let m = "qpdf: the page structure is unusable";
        proof { reveal_strlit("qpdf: the page structure is unusable"); }
        Error::Malformed(text(m))
    } else if code == OBJECT {
        let m = "qpdf: an object is malformed";
        proof { reveal_strlit("qpdf: an object is malformed"); }
        Error::Malformed(text(m))
    } else if code == JSON {
        let m = "qpdf: malformed json";
        proof { reveal_strlit("qpdf: malformed json"); }
        Error::Malformed(text(m))
    } else if code == UNSUPPORTED {
        let m = "qpdf: the document uses an unsupported feature";
        proof { reveal_strlit("qpdf: the document uses an unsupported feature"); }
        Error::Unsupported(text(m))
    } else if code == LINEARIZATION {
        let m = "qpdf: the linearization data is inconsistent";
        proof { reveal_strlit("qpdf: the linearization data is inconsistent"); }
        Error::Malformed(text(m))
    } else if code == INTERNAL {
        let m = "qpdf reported an internal error";
        proof { reveal_strlit("qpdf reported an internal error"); }
        Error::Internal(text(m))
    } else if code == SYSTEM {
        let m = "qpdf: the document ends unexpectedly";
        proof { reveal_strlit("qpdf: the document ends unexpectedly"); }
        Error::Malformed(text(m))
    } else {
        let m = "qpdf reported an unrecognised error code";
        proof { reveal_strlit("qpdf reported an unrecognised error code"); }
        Error::Internal(text(m))
    };
    e
}

} // verus!
