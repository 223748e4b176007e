//! Crate error type. The library returns [`Result`]; the binary renders the
//! [`Error`] at the boundary and maps it to an exit code.

use vstd::prelude::*;

verus! {

pub type Result<T> = core::result::Result<T, Error>;

/// What went wrong. Where an outside error is the cause, its text is carried.
#[derive(Debug, Clone, PartialEq, Eq)]
pub enum Error {
    /// An I/O operation failed; `context` describes what we were doing.
    Io { context: String, source: String },
    /// A size argument (sector size, transfer size, length) could not be parsed
    /// or was out of range.
    InvalidSize(String),
    /// A byte offset (`--skip` / `--seek`) is not a multiple of the sector size.
    /// The carried message names the offset and suggests the nearest aligned
    /// values.
    Misaligned(String),
    /// The target already exists and neither `--force` nor a resume applies.
    TargetExists(String),
    /// A preflight safety check refused the copy: source and target are the
    /// same file, the target is mounted or too small, or the source type is
    /// unsupported. The carried message names the problem and the way out.
    Refused(String),
    /// A command-line parameter conflicts with the resumed state file (the
    /// region map's coordinates depend on target, skip, seek, and the sector
    /// grid, so a silent mismatch would corrupt the copy). The carried message
    /// names the conflict and how to resolve it.
    StateConflict(String),
    /// The state file exists but could not be parsed as exhume state.
    StateParse { path: String, source: String },
    /// Serialising the in-memory state to TOML failed.
    StateSerialise(String),
    /// Installing the SIGINT/SIGTERM handler failed.
    Signal(String),
}

/// An [`Error`] with its texts as sequences of characters.
pub enum ErrorView {
    Io { context: Seq<char>, source: Seq<char> },
    InvalidSize(Seq<char>),
    Misaligned(Seq<char>),
    TargetExists(Seq<char>),
    Refused(Seq<char>),
    StateConflict(Seq<char>),
    StateParse { path: Seq<char>, source: Seq<char> },
    StateSerialise(Seq<char>),
    Signal(Seq<char>),
}

impl View for Error {
    type V = ErrorView;

    open spec fn view(&self) -> ErrorView {
        match self {
            Error::Io { context, source } => ErrorView::Io { context: context@, source: source@ },
            Error::InvalidSize(text) => ErrorView::InvalidSize(text@),
            Error::Misaligned(text) => ErrorView::Misaligned(text@),
            Error::TargetExists(path) => ErrorView::TargetExists(path@),
            Error::Refused(text) => ErrorView::Refused(text@),
            Error::StateConflict(text) => ErrorView::StateConflict(text@),
            Error::StateParse { path, source } => ErrorView::StateParse {
                path: path@,
                source: source@,
            },
            Error::StateSerialise(text) => ErrorView::StateSerialise(text@),
            Error::Signal(text) => ErrorView::Signal(text@),
        }
    }
}

impl ErrorView {
    /// The text shown to the user.
    pub open spec fn message(self) -> Seq<char> {
        match self {
            ErrorView::Io { context, source } => context + ": "@ + source,
            ErrorView::InvalidSize(text) => "invalid size: "@ + text,
            ErrorView::Misaligned(text) => text,
            ErrorView::TargetExists(path) => "target '"@ + path
                + "' already exists; pass --force to overwrite (a matching state file enables resume instead)"@,
            ErrorView::Refused(text) => text,
            ErrorView::StateConflict(text) => text,
            ErrorView::StateParse { path, source } => "failed to parse state file '"@ + path
                + "': "@ + source,
            ErrorView::StateSerialise(text) => "failed to serialise state: "@ + text,
            ErrorView::Signal(text) => "failed to install signal handler: "@ + text,
        }
    }
}

impl Error {
    /// An I/O error with human-readable context.
    pub fn io(context: String, source: String) -> (r: Self)
        ensures
            r@ == (ErrorView::Io { context: context@, source: source@ }),
    {
        Error::Io { context, source }
    }

    /// The text shown to the user.
    pub fn message(&self) -> (r: String)
        ensures
            r@ == self@.message(),
    {
        match self {
            Error::Io { context, source } => {
                let mut out = context.clone();
                out.append(": ");
                out.append(source.as_str());
                out
            },
            Error::InvalidSize(text) => {
                let mut out = "invalid size: ".to_owned();
                out.append(text.as_str());
                out
            },
            Error::Misaligned(text) => text.clone(),
            Error::TargetExists(path) => {
                let mut out = "target '".to_owned();
                out.append(path.as_str());
                out.append(
                    "' already exists; pass --force to overwrite (a matching state file enables resume instead)",
                );
                out
            },
            Error::Refused(text) => text.clone(),
            Error::StateConflict(text) => text.clone(),
            Error::StateParse { path, source } => {
                let mut out = "failed to parse state file '".to_owned();
                out.append(path.as_str());
                out.append("': ");
                out.append(source.as_str());
                out
            },
            Error::StateSerialise(text) => {
                let mut out = "failed to serialise state: ".to_owned();
                out.append(text.as_str());
                out
            },
            Error::Signal(text) => {
                let mut out = "failed to install signal handler: ".to_owned();
                out.append(text.as_str());
                out
            },
        }
    }
}

} // verus!
