//! The errors of the library and their texts.

use vstd::prelude::*;

use crate::text;

verus! {

/// Why reading from a byte source failed.
#[derive(Debug, Clone, Copy, PartialEq, Eq, Structural)]
pub enum IoErrorKind {
    /// The source ended before the bytes that were asked for.
    UnexpectedEof,
    /// The bytes are there, but they do not mean anything.
    InvalidData,
}

/// A failed read.
#[derive(Debug, Clone)]
pub struct IoError {
    pub kind: IoErrorKind,
    pub message: String,
}

/// The model of [`IoError`].
pub struct IoErrorView {
    pub kind: IoErrorKind,
    pub message: Seq<char>,
}

impl View for IoError {
    type V = IoErrorView;

    open spec fn view(&self) -> IoErrorView {
        IoErrorView { kind: self.kind, message: self.message@ }
    }
}

impl IoError {
    pub fn new(kind: IoErrorKind, message: String) -> (e: Self)
        ensures
            e@ == (IoErrorView { kind, message: message@ }),
    {
        IoError { kind, message }
    }

    /// The text of the error.
    pub fn to_string(&self) -> (s: String)
        ensures
            s@ == self.message@,
    {
        self.message.clone()
    }
}

/// Anything that can go wrong with an archive.
#[derive(Debug, Clone)]
pub enum Error {
    E2Store(E2StoreError),
    Io(IoError),
}

/// The model of [`Error`].
pub enum ErrorView {
    E2Store(E2StoreErrorView),
    Io(IoErrorView),
}

/// What is wrong with the contents of an archive.
#[derive(Debug, Clone)]
pub enum E2StoreError {
    TruncatedHeader(usize),
    NonZeroReserved(u16),
    UnexpectedType { expected: [u8; 2], actual: [u8; 2] },
    MissingVersion,
    OverlongEntry { declared: u64, available: u64 },
    InvalidEra(String),
    InvalidEra1(String),
    InvalidManifest(String),
}

/// The model of [`E2StoreError`].
pub enum E2StoreErrorView {
    TruncatedHeader(usize),
    NonZeroReserved(u16),
    UnexpectedType { expected: [u8; 2], actual: [u8; 2] },
    MissingVersion,
    OverlongEntry { declared: u64, available: u64 },
    InvalidEra(Seq<char>),
    InvalidEra1(Seq<char>),
    InvalidManifest(Seq<char>),
}

impl View for E2StoreError {
    type V = E2StoreErrorView;

    open spec fn view(&self) -> E2StoreErrorView {
        match *self {
            E2StoreError::TruncatedHeader(n) => E2StoreErrorView::TruncatedHeader(n),
            E2StoreError::NonZeroReserved(n) => E2StoreErrorView::NonZeroReserved(n),
            E2StoreError::UnexpectedType { expected, actual } => E2StoreErrorView::UnexpectedType {
                expected,
                actual,
            },
            E2StoreError::MissingVersion => E2StoreErrorView::MissingVersion,
            E2StoreError::OverlongEntry { declared, available } => E2StoreErrorView::OverlongEntry {
                declared,
                available,
            },
            E2StoreError::InvalidEra(s) => E2StoreErrorView::InvalidEra(s@),
            E2StoreError::InvalidEra1(s) => E2StoreErrorView::InvalidEra1(s@),
            E2StoreError::InvalidManifest(s) => E2StoreErrorView::InvalidManifest(s@),
        }
    }
}

impl View for Error {
    type V = ErrorView;

    open spec fn view(&self) -> ErrorView {
        match *self {
            Error::E2Store(e) => ErrorView::E2Store(e@),
            Error::Io(e) => ErrorView::Io(e@),
        }
    }
}

/// An entry type in list notation.
pub open spec fn type_list_text(typ: [u8; 2]) -> Seq<char> {
    "["@ + text::dec(typ[0] as nat) + ", "@ + text::dec(typ[1] as nat) + "]"@
}

impl E2StoreErrorView {
    /// The text of the error.
    pub open spec fn text(self) -> Seq<char> {
        match self {
            E2StoreErrorView::TruncatedHeader(n) => "truncated header: expected 8 bytes, got "@
                + text::dec(n as nat),
            E2StoreErrorView::NonZeroReserved(n) => "non-zero reserved field: "@ + text::dec(n as nat),
            E2StoreErrorView::UnexpectedType { expected, actual } =>
                "unexpected entry type: expected "@ + type_list_text(expected) + ", got "@
                + type_list_text(actual),
            E2StoreErrorView::MissingVersion => "missing version entry as first entry"@,
            E2StoreErrorView::OverlongEntry { declared, available } =>
                "entry data length exceeds remaining file: declared "@ + text::dec(declared as nat)
                + ", available "@ + text::dec(available as nat),
            E2StoreErrorView::InvalidEra(s) => "invalid era file: "@ + s,
            E2StoreErrorView::InvalidEra1(s) => "invalid era1 file: "@ + s,
            E2StoreErrorView::InvalidManifest(s) => "invalid manifest: "@ + s,
        }
    }
}

impl ErrorView {
    /// The text of the error.
    pub open spec fn text(self) -> Seq<char> {
        match self {
            ErrorView::E2Store(e) => "e2store parse error: "@ + e.text(),
            ErrorView::Io(e) => "io error: "@ + e.message,
        }
    }
}

fn push_type_list(s: &mut String, typ: [u8; 2])
    ensures
        final(s)@ == old(s)@ + type_list_text(typ),
{
    s.append("[");
    text::push_dec(s, typ[0] as u64);
    s.append(", ");
    text::push_dec(s, typ[1] as u64);
    s.append("]");
    assert(s@ =~= old(s)@ + type_list_text(typ));
}

impl E2StoreError {
    /// The text of the error.
    pub fn to_string(&self) -> (s: String)
        ensures
            s@ == self@.text(),
    {
        match self {
            E2StoreError::TruncatedHeader(n) => {
                let mut s = "truncated header: expected 8 bytes, got ".to_owned();
                text::push_dec(&mut s, *n as u64);
                s
            },
            E2StoreError::NonZeroReserved(n) => {
                let mut s = "non-zero reserved field: ".to_owned();
                text::push_dec(&mut s, *n as u64);
                s
            },
            E2StoreError::UnexpectedType { expected, actual } => {
                let mut s = "unexpected entry type: expected ".to_owned();
                push_type_list(&mut s, *expected);
                s.append(", got ");
                push_type_list(&mut s, *actual);
                s
            },
            E2StoreError::MissingVersion => "missing version entry as first entry".to_owned(),
            E2StoreError::OverlongEntry { declared, available } => {
                let mut s = "entry data length exceeds remaining file: declared ".to_owned();
                text::push_dec(&mut s, *declared);
                s.append(", available ");
                text::push_dec(&mut s, *available);
                s
            },
            E2StoreError::InvalidEra(t) => "invalid era file: ".to_owned().concat(t.as_str()),
            E2StoreError::InvalidEra1(t) => "invalid era1 file: ".to_owned().concat(t.as_str()),
            E2StoreError::InvalidManifest(t) => "invalid manifest: ".to_owned().concat(t.as_str()),
        }
    }
}

impl Error {
    /// The text of the error.
    pub fn to_string(&self) -> (s: String)
        ensures
            s@ == self@.text(),
    {
        match self {
            Error::E2Store(e) => "e2store parse error: ".to_owned().concat(e.to_string().as_str()),
            Error::Io(e) => "io error: ".to_owned().concat(e.message.as_str()),
        }
    }

    /// The error for an archive that does not start with a version entry.
    pub fn missing_version() -> (e: Self)
        ensures
            e@ == missing_version_view(),
    {
        Error::E2Store(E2StoreError::MissingVersion)
    }

    /// The error for a malformed archive.
    pub fn invalid_era(message: String) -> (e: Self)
        ensures
            e@ == invalid_era_view(message@),
    {
        Error::E2Store(E2StoreError::InvalidEra(message))
    }
}

/// The model of [`Error::missing_version`].
pub open spec fn missing_version_view() -> ErrorView {
    ErrorView::E2Store(E2StoreErrorView::MissingVersion)
}

/// The model of [`Error::invalid_era`].
pub open spec fn invalid_era_view(message: Seq<char>) -> ErrorView {
    ErrorView::E2Store(E2StoreErrorView::InvalidEra(message))
}

} // verus!
