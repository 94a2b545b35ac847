//! Errors raised by the library's own logic.

use vstd::prelude::*;

verus! {

/// What went wrong. Each variant carries the message shown to the user.
#[derive(Debug, PartialEq, Eq)]
pub enum GikError {
    Io(String),
    InvalidHash,
    NotFound(String),
    AmbiguousHash(String),
    Validation(String),
    Branch(String),
    Config(String),
    Auth(String),
    Network(String),
    Merge(String),
    DirtyWorkspace(String),
}

/// The text an error is shown with.
pub open spec fn error_text(e: GikError) -> Seq<char> {
    match e {
        GikError::Io(m) => "IO error: "@ + m@,
        GikError::InvalidHash => "Invalid hash length"@,
        GikError::NotFound(m) => "Not found: "@ + m@,
        GikError::AmbiguousHash(m) => "Ambiguous hash: "@ + m@,
        GikError::Validation(m) => m@,
        GikError::Branch(m) => "Branch error: "@ + m@,
        GikError::Config(m) => "Configuration error: "@ + m@,
        GikError::Auth(m) => "Authentication error: "@ + m@,
        GikError::Network(m) => "Network error: "@ + m@,
        GikError::Merge(m) => "Merge error: "@ + m@,
        GikError::DirtyWorkspace(m) => "Workspace has uncommitted changes: "@ + m@,
    }
}

impl GikError {
    /// The text the error is shown with: a prefix naming its kind, then its
    /// message.
    pub fn to_string(&self) -> (s: String)
        ensures
            s@ == error_text(*self),
    {
        let mut out: Vec<char> = Vec::new();
        match self {
            GikError::Io(m) => {
                crate::text::push_str(&mut out, "IO error: ");
                crate::text::push_str(&mut out, m.as_str());
            },
            GikError::InvalidHash => {
                crate::text::push_str(&mut out, "Invalid hash length");
            },
            GikError::NotFound(m) => {
                crate::text::push_str(&mut out, "Not found: ");
                crate::text::push_str(&mut out, m.as_str());
            },
            GikError::AmbiguousHash(m) => {
                crate::text::push_str(&mut out, "Ambiguous hash: ");
                crate::text::push_str(&mut out, m.as_str());
            },
            GikError::Validation(m) => {
                crate::text::push_str(&mut out, m.as_str());
            },
            GikError::Branch(m) => {
                crate::text::push_str(&mut out, "Branch error: ");
                crate::text::push_str(&mut out, m.as_str());
            },
            GikError::Config(m) => {
                crate::text::push_str(&mut out, "Configuration error: ");
                crate::text::push_str(&mut out, m.as_str());
            },
            GikError::Auth(m) => {
                crate::text::push_str(&mut out, "Authentication error: ");
                crate::text::push_str(&mut out, m.as_str());
            },
            GikError::Network(m) => {
                crate::text::push_str(&mut out, "Network error: ");
                crate::text::push_str(&mut out, m.as_str());
            },
            GikError::Merge(m) => {
                crate::text::push_str(&mut out, "Merge error: ");
                crate::text::push_str(&mut out, m.as_str());
            },
            GikError::DirtyWorkspace(m) => {
                crate::text::push_str(&mut out, "Workspace has uncommitted changes: ");
                crate::text::push_str(&mut out, m.as_str());
            },
        }
        crate::external::chars_to_string(out.as_slice())
    }
}

} // verus!
