//! Fatal errors of configuration parsing and reference resolution.
//!
//! Every error renders as one human-readable line; the caller prints it and
//! exits.  Spawn-time failures are not here: they belong to the process
//! layer around the library.

use vstd::prelude::*;
use vstd::string::StringExecFns;

verus! {

/// Why a configuration was rejected.
#[derive(Debug)]
pub enum Error {
    /// The document is not valid at the text level; carries the parser's line.
    ConfigParse(String),
    /// A declaration has neither a `name` nor a `ref` key (also raised when a
    /// merged declaration fails to qualify as named).
    NoNameOrRef,
    /// A `ref` names a key that no named declaration carries.
    RefNotFound(String),
    /// A `ref` resolves to a declaration that is itself a `ref`.
    RefToRef(String),
    /// A declaration survived resolution still unresolved; never reachable
    /// once resolution has succeeded.
    UnresolvedRef,
    /// A required field is absent; carries the field key.
    MissingField(String),
    /// A field holds a value of the wrong kind; carries the field key.
    BadFieldType(String),
}

/// The mathematical shape of an `Error`.
#[verifier::ext_equal]
pub enum ErrorV {
    ConfigParse(Seq<char>),
    NoNameOrRef,
    RefNotFound(Seq<char>),
    RefToRef(Seq<char>),
    UnresolvedRef,
    MissingField(Seq<char>),
    BadFieldType(Seq<char>),
}

impl View for Error {
    type V = ErrorV;

    open spec fn view(&self) -> ErrorV {
        match self {
            Error::ConfigParse(m) => ErrorV::ConfigParse(m@),
            Error::NoNameOrRef => ErrorV::NoNameOrRef,
            Error::RefNotFound(t) => ErrorV::RefNotFound(t@),
            Error::RefToRef(t) => ErrorV::RefToRef(t@),
            Error::UnresolvedRef => ErrorV::UnresolvedRef,
            Error::MissingField(k) => ErrorV::MissingField(k@),
            Error::BadFieldType(k) => ErrorV::BadFieldType(k@),
        }
    }
}

impl Error {
    /// The one-line rendering of the error.
    pub fn message(&self) -> (r: String)
        ensures
            r@ == self.message_view(),
    {
        match self {
            Error::ConfigParse(m) => {
                String::from_str("fail to parse the configuration: ").concat(m.as_str())
            }
            Error::NoNameOrRef => {
                String::from_str("a runner declaration has no 'name' or 'ref' key")
            }
            Error::RefNotFound(t) => {
                String::from_str("ref target not found: ").concat(t.as_str())
            }
            Error::RefToRef(t) => {
                String::from_str("ref target is itself a ref: ").concat(t.as_str())
            }
            Error::UnresolvedRef => {
                String::from_str("a runner declaration survived resolution unresolved")
            }
            Error::MissingField(k) => {
                String::from_str("a runner declaration misses the required field: ").concat(
                    k.as_str(),
                )
            }
            Error::BadFieldType(k) => {
                String::from_str("a runner field holds a value of the wrong kind: ").concat(
                    k.as_str(),
                )
            }
        }
    }

    /// What `message` returns, as a character sequence.
    pub open spec fn message_view(&self) -> Seq<char> {
        match self {
            Error::ConfigParse(m) => "fail to parse the configuration: "@ + m@,
            Error::NoNameOrRef => "a runner declaration has no 'name' or 'ref' key"@,
            Error::RefNotFound(t) => "ref target not found: "@ + t@,
            Error::RefToRef(t) => "ref target is itself a ref: "@ + t@,
            Error::UnresolvedRef => "a runner declaration survived resolution unresolved"@,
            Error::MissingField(k) => "a runner declaration misses the required field: "@ + k@,
            Error::BadFieldType(k) => "a runner field holds a value of the wrong kind: "@ + k@,
        }
    }
}

} // verus!
