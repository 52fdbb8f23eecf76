//! The error taxonomy of the driver: configuration errors (the plugin could
//! not be built), transformation errors (the plugin failed on a chapter),
//! I/O errors reported by the host, and malformed replacement sets
//! (overlapping or out-of-bounds spans), which the engine rejects rather
//! than corrupting text.

use vstd::prelude::*;
use vstd::string::*;

verus! {

#[derive(Debug)]
pub enum Error {
    /// The plugin could not be built from its context.
    Config(String),
    /// The plugin failed to compute replacements for a chapter.
    Transform(String),
    /// The host reported a filesystem failure.
    Io(String),
    /// A replacement set had overlapping or out-of-bounds spans.
    MalformedReplacement,
}

impl Error {
    /// A human-readable description of the error.
    pub fn message(&self) -> (r: String)
        ensures
            match self {
                Error::Config(m) => r@ == "configuration error: "@ + m@,
                Error::Transform(m) => r@ == "transformation error: "@ + m@,
                Error::Io(m) => r@ == "i/o error: "@ + m@,
                Error::MalformedReplacement => (r@
                    == "malformed replacement: overlapping or out-of-bounds spans"@),
            },
    {
        match self {
            Error::Config(m) => {
                let mut s = String::from_str("configuration error: ");
                s.append(m.as_str());
                s
            },
            Error::Transform(m) => {
                let mut s = String::from_str("transformation error: ");
                s.append(m.as_str());
                s
            },
            Error::Io(m) => {
                let mut s = String::from_str("i/o error: ");
                s.append(m.as_str());
                s
            },
            Error::MalformedReplacement => String::from_str(
                "malformed replacement: overlapping or out-of-bounds spans",
            ),
        }
    }
}

} // verus!
