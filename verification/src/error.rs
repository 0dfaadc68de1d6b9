//! The library's error type.
use vstd::prelude::*;

use crate::text::{append_str, owned};

verus! {

/// What went wrong. Each variant carries the text that the user sees after
/// the variant's fixed prefix (see [`Error::display`]).
#[derive(Debug, Clone)]
pub enum Error {
    Message(String),
    ReadFile { path: String, source: String },
    WriteFile { path: String, source: String },
    Git(String),
    Config(String),
    Pack(String),
    Audio(String),
    UnsupportedGit(String),
}

/// The text that `Error::display` gives.
pub open spec fn error_text(e: Error) -> Seq<char> {
    match e {
        Error::Message(m) => m@,
        Error::ReadFile { path, source } => "could not read "@ + path@ + ": "@ + source@,
        Error::WriteFile { path, source } => "could not write "@ + path@ + ": "@ + source@,
        Error::Git(m) => "could not run Git: "@ + m@,
        Error::Config(m) => "invalid configuration: "@ + m@,
        Error::Pack(m) => "invalid pack: "@ + m@,
        Error::Audio(m) => "audio playback failed: "@ + m@,
        Error::UnsupportedGit(v) => "GitSama requires Git 2.54 or newer (detected "@ + v@ + ")"@,
    }
}

impl Error {
    /// A plain message error.
    pub fn message(value: &str) -> (e: Error)
        ensures
            e matches Error::Message(m) && m@ == value@,
    {
        Error::Message(owned(value))
    }

    /// The human-readable description of the error.
    pub fn display(&self) -> (s: String)
        ensures
            s@ == error_text(*self),
    {
        match self {
            Error::Message(m) => m.clone(),
            Error::ReadFile { path, source } => {
                let mut s = owned("could not read ");
                append_str(&mut s, path.as_str());
                append_str(&mut s, ": ");
                append_str(&mut s, source.as_str());
                s
            },
            Error::WriteFile { path, source } => {
                let mut s = owned("could not write ");
                append_str(&mut s, path.as_str());
                append_str(&mut s, ": ");
                append_str(&mut s, source.as_str());
                s
            },
            Error::Git(m) => {
                let mut s = owned("could not run Git: ");
                append_str(&mut s, m.as_str());
                s
            },
            Error::Config(m) => {
                let mut s = owned("invalid configuration: ");
                append_str(&mut s, m.as_str());
                s
            },
            Error::Pack(m) => {
                let mut s = owned("invalid pack: ");
                append_str(&mut s, m.as_str());
                s
            },
            Error::Audio(m) => {
                let mut s = owned("audio playback failed: ");
                append_str(&mut s, m.as_str());
                s
            },
            Error::UnsupportedGit(v) => {
                let mut s = owned("GitSama requires Git 2.54 or newer (detected ");
                append_str(&mut s, v.as_str());
                append_str(&mut s, ")");
                s
            },
        }
    }
}

} // verus!
