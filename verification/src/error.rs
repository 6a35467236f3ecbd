//! Error type for timezone data parsing and lookup.

use vstd::prelude::*;
use vstd::string::*;

verus! {

/// Errors produced when loading or parsing timezone data.
#[derive(Debug, Clone, Copy, PartialEq, Eq)]
#[non_exhaustive]
pub enum Error {
    /// The requested zone was not found in the embedded database.
    NotFound,
    /// A POSIX TZ string could not be parsed. The payload is a short reason.
    BadPosixTz(&'static str),
    /// TZif data could not be parsed. The payload is a short reason.
    BadData(&'static str),
    /// A zip archive could not be read. The payload is a short reason.
    BadZip(&'static str),
}

/// The text a message starts with, by kind of error.
pub open spec fn message_prefix(e: Error) -> Seq<char> {
    match e {
        Error::NotFound => "timezone not found in embedded data"@,
        Error::BadPosixTz(_) => "malformed POSIX TZ string: "@,
        Error::BadData(_) => "malformed TZif data: "@,
        Error::BadZip(_) => "malformed zip archive: "@,
    }
}

/// The full human-readable message of an error.
pub open spec fn message_of(e: Error) -> Seq<char> {
    match e {
        Error::NotFound => message_prefix(e),
        Error::BadPosixTz(why) => message_prefix(e) + why@,
        Error::BadData(why) => message_prefix(e) + why@,
        Error::BadZip(why) => message_prefix(e) + why@,
    }
}

impl Error {
    /// The human-readable description of this error.
    pub fn message(&self) -> (r: String)
        ensures
            r@ == message_of(*self),
    {
        match self {
            Error::NotFound => String::from_str("timezone not found in embedded data"),
            Error::BadPosixTz(why) => {
                let mut s = String::from_str("malformed POSIX TZ string: ");
                s.append(why);
                s
            },
            Error::BadData(why) => {
                let mut s = String::from_str("malformed TZif data: ");
                s.append(why);
                s
            },
            Error::BadZip(why) => {
                let mut s = String::from_str("malformed zip archive: ");
                s.append(why);
                s
            },
        }
    }
}

} // verus!
