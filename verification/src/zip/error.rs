//! Why an archive could not be processed.

use crate::text::{
    decimal_text, hexadecimal_text, law_occurs, numbered, occurs, same_text, text_contains,
};
use vstd::prelude::*;
use vstd::string::*;

verus! {

/// A failed read or write: its kind by name, and what the system says of it.
#[derive(Debug)]
pub struct IoError {
    pub kind: String,
    pub message: String,
}

/// Any failure of the library.
#[derive(Debug)]
pub enum Error {
    /// A read or a write failed.
    Io { context: Option<String>, source: IoError },
    /// The archive is not laid out as a ZIP archive is, or a signature is wrong.
    InvalidArchive(ArchiveError),
    /// The archive uses something that is not supported, such as several disks.
    Unsupported(UnsupportedFeature),
    /// A file name is not UTF-8.
    NonUtf8Filename { entry_no: u64 },
    /// A size limit of the format is exceeded.
    LimitExceeded(LimitError),
    /// Any other failure, as a text.
    Message(String),
}

/// What is wrong with the layout of an archive.
#[allow(inconsistent_fields)]
#[derive(Debug)]
pub enum ArchiveError {
    TooSmall,
    EocdNotFound,
    UnexpectedEof { part: String, entry_no: Option<u64> },
    InvalidSignature { record: &'static str, entry_no: Option<u64>, offset: Option<u64> },
    CentralDirectoryRange { offset: u64, size: u64, file_len: u64 },
    CentralDirectoryOverlap { offset: u64, size: u64, limit: u64 },
    Other(String),
}

/// What an archive uses and this library does not support.
#[derive(Debug)]
pub enum UnsupportedFeature {
    MultiDisk,
    MultiDiskZip64,
    EntryCountMismatch,
    Other(String),
}

/// Which limit of the format is exceeded.
#[derive(Debug)]
pub enum LimitError {
    Value { context: String, value: u64 },
    Other(String),
}

pub type Result<T> = core::result::Result<T, Error>;

/// What an [`Error`] says, with texts as character sequences.
#[verifier::ext_equal]
pub enum ErrorModel {
    Io { context: Option<Seq<char>>, kind: Seq<char>, message: Seq<char> },
    InvalidArchive(ArchiveErrorModel),
    Unsupported(UnsupportedModel),
    NonUtf8Filename { entry_no: u64 },
    LimitExceeded(LimitModel),
    Message(Seq<char>),
}

/// What an [`ArchiveError`] says.
#[allow(inconsistent_fields)]
#[verifier::ext_equal]
pub enum ArchiveErrorModel {
    TooSmall,
    EocdNotFound,
    UnexpectedEof { part: Seq<char>, entry_no: Option<u64> },
    InvalidSignature { record: Seq<char>, entry_no: Option<u64>, offset: Option<u64> },
    CentralDirectoryRange { offset: u64, size: u64, file_len: u64 },
    CentralDirectoryOverlap { offset: u64, size: u64, limit: u64 },
    Other(Seq<char>),
}

/// What an [`UnsupportedFeature`] says.
#[verifier::ext_equal]
pub enum UnsupportedModel {
    MultiDisk,
    MultiDiskZip64,
    EntryCountMismatch,
    Other(Seq<char>),
}

/// What a [`LimitError`] says.
#[verifier::ext_equal]
pub enum LimitModel {
    Value { context: Seq<char>, value: u64 },
    Other(Seq<char>),
}

/// The result of a fallible function with its value and its error by their views.
pub open spec fn outcome<T: View>(r: core::result::Result<T, Error>) -> core::result::Result<
    T::V,
    ErrorModel,
> {
    match r {
        Ok(v) => Ok(v@),
        Err(e) => Err(e@),
    }
}

/// The result of a function that fails with a text, with the text by its view.
pub open spec fn text_outcome<T>(r: core::result::Result<T, String>) -> core::result::Result<
    T,
    Seq<char>,
> {
    match r {
        Ok(v) => Ok(v),
        Err(e) => Err(e@),
    }
}

/// A failure that has only a text.
pub open spec fn message(text: Seq<char>) -> ErrorModel {
    ErrorModel::Message(text)
}

/// An archive fault that has no variant of its own.
pub open spec fn invalid(text: Seq<char>) -> ErrorModel {
    ErrorModel::InvalidArchive(ArchiveErrorModel::Other(text))
}

/// A limit that has no variant of its own.
pub open spec fn limit(text: Seq<char>) -> ErrorModel {
    ErrorModel::LimitExceeded(LimitModel::Other(text))
}

/// The failure of a read that asked for more bytes than there are.
pub open spec fn end_of_input() -> ErrorModel {
    ErrorModel::Io {
        context: None,
        kind: "UnexpectedEof"@,
        message: "failed to fill whole buffer"@,
    }
}

impl ArchiveErrorModel {
    /// The message for this fault.
    pub open spec fn text(self) -> Seq<char> {
        match self {
            ArchiveErrorModel::TooSmall => "file is too small to be a valid ZIP archive"@,
            ArchiveErrorModel::EocdNotFound =>
                "End of Central Directory record not found; not a valid ZIP archive"@,
            ArchiveErrorModel::UnexpectedEof { part, entry_no } => match entry_no {
                Some(n) => "unexpected EOF reading "@ + part + " at entry "@ + decimal_of(n),
                None => "unexpected EOF reading "@ + part,
            },
            ArchiveErrorModel::InvalidSignature { record, entry_no, offset } => match (
                entry_no,
                offset,
            ) {
                (Some(n), Some(o)) => "invalid "@ + record + " signature"@ + " at entry "@
                    + decimal_of(n) + " (offset "@ + crate::text::hexadecimal(o as int) + ")"@,
                (Some(n), None) => "invalid "@ + record + " signature"@ + " at entry "@
                    + decimal_of(n),
                (None, Some(o)) => "invalid "@ + record + " signature"@ + " at offset "@
                    + crate::text::hexadecimal(o as int),
                (None, None) => "invalid "@ + record + " signature"@,
            },
            ArchiveErrorModel::CentralDirectoryRange { offset, size, file_len } =>
                "Central Directory range exceeds file length: offset "@ + decimal_of(offset)
                    + ", size "@ + decimal_of(size) + ", file length "@ + decimal_of(file_len),
            ArchiveErrorModel::CentralDirectoryOverlap { offset, size, limit } =>
                "Central Directory overlaps end records: offset "@ + decimal_of(offset)
                    + ", size "@ + decimal_of(size) + ", limit "@ + decimal_of(limit),
            ArchiveErrorModel::Other(text) => text,
        }
    }
}

impl UnsupportedModel {
    /// The message for this feature.
    pub open spec fn text(self) -> Seq<char> {
        match self {
            UnsupportedModel::MultiDisk => "multi-disk ZIP archives are not supported"@,
            UnsupportedModel::MultiDiskZip64 => "multi-disk ZIP64 archives are not supported"@,
            UnsupportedModel::EntryCountMismatch =>
                "entry count mismatch; multi-disk ZIP may be unsupported"@,
            UnsupportedModel::Other(text) => text,
        }
    }
}

impl LimitModel {
    /// The message for this limit.
    pub open spec fn text(self) -> Seq<char> {
        match self {
            LimitModel::Value { context, value } => context + ": "@ + decimal_of(value),
            LimitModel::Other(text) => text,
        }
    }
}

impl ErrorModel {
    /// The whole message that a user is shown.
    pub open spec fn text(self) -> Seq<char> {
        match self {
            ErrorModel::Io { context, message, .. } => match context {
                Some(context) => "I/O error: "@ + context + ": "@ + message,
                None => "I/O error: "@ + message,
            },
            ErrorModel::InvalidArchive(fault) => "Invalid ZIP archive: "@ + fault.text(),
            ErrorModel::Unsupported(feature) => "Unsupported ZIP feature: "@ + feature.text(),
            ErrorModel::NonUtf8Filename { entry_no } => "entry "@ + decimal_of(entry_no)
                + " has a non-UTF-8 filename; rerun with --not-utf-8 to leave filename bytes and bit 11 unchanged"@,
            ErrorModel::LimitExceeded(limit) => "ZIP limit exceeded: "@ + limit.text(),
            ErrorModel::Message(text) => text,
        }
    }

    /// The message without the words that name its class, where it has such words.
    pub open spec fn detail(self) -> Seq<char> {
        match self {
            ErrorModel::Io { message, .. } => message,
            ErrorModel::InvalidArchive(fault) => fault.text(),
            ErrorModel::Unsupported(feature) => feature.text(),
            ErrorModel::NonUtf8Filename { .. } => self.text(),
            ErrorModel::LimitExceeded(limit) => limit.text(),
            ErrorModel::Message(text) => text,
        }
    }

    /// Whether an error is described by `text`, with or without the words for its class.
    pub open spec fn is_described_by(self, text: Seq<char>) -> bool {
        self.detail() == text || self.text() == text
    }
}

/// `n` in decimal.
pub open spec fn decimal_of(n: u64) -> Seq<char> {
    crate::text::decimal(n as int)
}

pub open spec fn optional_text(s: Option<String>) -> Option<Seq<char>> {
    match s {
        Some(s) => Some(s@),
        None => None,
    }
}

impl View for ArchiveError {
    type V = ArchiveErrorModel;

    open spec fn view(&self) -> ArchiveErrorModel {
        match *self {
            ArchiveError::TooSmall => ArchiveErrorModel::TooSmall,
            ArchiveError::EocdNotFound => ArchiveErrorModel::EocdNotFound,
            ArchiveError::UnexpectedEof { part, entry_no } => ArchiveErrorModel::UnexpectedEof {
                part: part@,
                entry_no,
            },
            ArchiveError::InvalidSignature { record, entry_no, offset } =>
                ArchiveErrorModel::InvalidSignature { record: record@, entry_no, offset },
            ArchiveError::CentralDirectoryRange { offset, size, file_len } =>
                ArchiveErrorModel::CentralDirectoryRange { offset, size, file_len },
            ArchiveError::CentralDirectoryOverlap { offset, size, limit } =>
                ArchiveErrorModel::CentralDirectoryOverlap { offset, size, limit },
            ArchiveError::Other(text) => ArchiveErrorModel::Other(text@),
        }
    }
}

impl View for UnsupportedFeature {
    type V = UnsupportedModel;

    open spec fn view(&self) -> UnsupportedModel {
        match *self {
            UnsupportedFeature::MultiDisk => UnsupportedModel::MultiDisk,
            UnsupportedFeature::MultiDiskZip64 => UnsupportedModel::MultiDiskZip64,
            UnsupportedFeature::EntryCountMismatch => UnsupportedModel::EntryCountMismatch,
            UnsupportedFeature::Other(text) => UnsupportedModel::Other(text@),
        }
    }
}

impl View for LimitError {
    type V = LimitModel;

    open spec fn view(&self) -> LimitModel {
        match *self {
            LimitError::Value { context, value } => LimitModel::Value { context: context@, value },
            LimitError::Other(text) => LimitModel::Other(text@),
        }
    }
}

impl View for Error {
    type V = ErrorModel;

    open spec fn view(&self) -> ErrorModel {
        match *self {
            Error::Io { context, source } => ErrorModel::Io {
                context: optional_text(context),
                kind: source.kind@,
                message: source.message@,
            },
            Error::InvalidArchive(fault) => ErrorModel::InvalidArchive(fault@),
            Error::Unsupported(feature) => ErrorModel::Unsupported(feature@),
            Error::NonUtf8Filename { entry_no } => ErrorModel::NonUtf8Filename { entry_no },
            Error::LimitExceeded(limit) => ErrorModel::LimitExceeded(limit@),
            Error::Message(text) => ErrorModel::Message(text@),
        }
    }
}

impl Clone for IoError {
    fn clone(&self) -> (r: Self)
        ensures
            r == *self,
    {
        IoError { kind: self.kind.clone(), message: self.message.clone() }
    }
}

impl Clone for ArchiveError {
    fn clone(&self) -> (r: Self)
        ensures
            r == *self,
    {
        match self {
            ArchiveError::TooSmall => ArchiveError::TooSmall,
            ArchiveError::EocdNotFound => ArchiveError::EocdNotFound,
            ArchiveError::UnexpectedEof { part, entry_no } => ArchiveError::UnexpectedEof {
                part: part.clone(),
                entry_no: *entry_no,
            },
            ArchiveError::InvalidSignature { record, entry_no, offset } =>
                ArchiveError::InvalidSignature {
                record: *record,
                entry_no: *entry_no,
                offset: *offset,
            },
            ArchiveError::CentralDirectoryRange { offset, size, file_len } =>
                ArchiveError::CentralDirectoryRange {
                offset: *offset,
                size: *size,
                file_len: *file_len,
            },
            ArchiveError::CentralDirectoryOverlap { offset, size, limit } =>
                ArchiveError::CentralDirectoryOverlap {
                offset: *offset,
                size: *size,
                limit: *limit,
            },
            ArchiveError::Other(text) => ArchiveError::Other(text.clone()),
        }
    }
}

impl Clone for UnsupportedFeature {
    fn clone(&self) -> (r: Self)
        ensures
            r == *self,
    {
        match self {
            UnsupportedFeature::MultiDisk => UnsupportedFeature::MultiDisk,
            UnsupportedFeature::MultiDiskZip64 => UnsupportedFeature::MultiDiskZip64,
            UnsupportedFeature::EntryCountMismatch => UnsupportedFeature::EntryCountMismatch,
            UnsupportedFeature::Other(text) => UnsupportedFeature::Other(text.clone()),
        }
    }
}

impl Clone for LimitError {
    fn clone(&self) -> (r: Self)
        ensures
            r == *self,
    {
        match self {
            LimitError::Value { context, value } => LimitError::Value {
                context: context.clone(),
                value: *value,
            },
            LimitError::Other(text) => LimitError::Other(text.clone()),
        }
    }
}

impl Clone for Error {
    fn clone(&self) -> (r: Self)
        ensures
            r == *self,
    {
        match self {
            Error::Io { context, source } => Error::Io {
                context: match context {
                    Some(c) => Some(c.clone()),
                    None => None,
                },
                source: source.clone(),
            },
            Error::InvalidArchive(fault) => Error::InvalidArchive(fault.clone()),
            Error::Unsupported(feature) => Error::Unsupported(feature.clone()),
            Error::NonUtf8Filename { entry_no } => Error::NonUtf8Filename { entry_no: *entry_no },
            Error::LimitExceeded(limit) => Error::LimitExceeded(limit.clone()),
            Error::Message(text) => Error::Message(text.clone()),
        }
    }
}

fn same_number(a: Option<u64>, b: Option<u64>) -> (r: bool)
    ensures
        r == (a == b),
{
    match (a, b) {
        (Some(x), Some(y)) => x == y,
        (None, None) => true,
        _ => false,
    }
}

fn same_context(a: &Option<String>, b: &Option<String>) -> (r: bool)
    ensures
        r == (optional_text(*a) == optional_text(*b)),
{
    match (a, b) {
        (Some(x), Some(y)) => same_text(x.as_str(), y.as_str()),
        (None, None) => true,
        _ => false,
    }
}

impl PartialEq for ArchiveError {
    fn eq(&self, other: &Self) -> (r: bool) {
        match (self, other) {
            (ArchiveError::TooSmall, ArchiveError::TooSmall) => true,
            (ArchiveError::EocdNotFound, ArchiveError::EocdNotFound) => true,
            (
                ArchiveError::UnexpectedEof { part: p, entry_no: n },
                ArchiveError::UnexpectedEof { part: q, entry_no: m },
            ) => same_text(p.as_str(), q.as_str()) && same_number(*n, *m),
            (
                ArchiveError::InvalidSignature { record: p, entry_no: n, offset: o },
                ArchiveError::InvalidSignature { record: q, entry_no: m, offset: u },
            ) => same_text(*p, *q) && same_number(*n, *m) && same_number(*o, *u),
            (
                ArchiveError::CentralDirectoryRange { offset: o, size: s, file_len: l },
                ArchiveError::CentralDirectoryRange { offset: u, size: t, file_len: m },
            ) => *o == *u && *s == *t && *l == *m,
            (
                ArchiveError::CentralDirectoryOverlap { offset: o, size: s, limit: l },
                ArchiveError::CentralDirectoryOverlap { offset: u, size: t, limit: m },
            ) => *o == *u && *s == *t && *l == *m,
            (ArchiveError::Other(a), ArchiveError::Other(b)) => same_text(
                a.as_str(),
                b.as_str(),
            ),
            _ => false,
        }
    }
}

impl vstd::std_specs::cmp::PartialEqSpecImpl for ArchiveError {
    open spec fn obeys_eq_spec() -> bool {
        true
    }

    open spec fn eq_spec(&self, other: &Self) -> bool {
        self@ == other@
    }
}

impl PartialEq for UnsupportedFeature {
    fn eq(&self, other: &Self) -> (r: bool) {
        match (self, other) {
            (UnsupportedFeature::MultiDisk, UnsupportedFeature::MultiDisk) => true,
            (UnsupportedFeature::MultiDiskZip64, UnsupportedFeature::MultiDiskZip64) => true,
            (UnsupportedFeature::EntryCountMismatch, UnsupportedFeature::EntryCountMismatch) =>
                true,
            (UnsupportedFeature::Other(a), UnsupportedFeature::Other(b)) => same_text(
                a.as_str(),
                b.as_str(),
            ),
            _ => false,
        }
    }
}

impl vstd::std_specs::cmp::PartialEqSpecImpl for UnsupportedFeature {
    open spec fn obeys_eq_spec() -> bool {
        true
    }

    open spec fn eq_spec(&self, other: &Self) -> bool {
        self@ == other@
    }
}

impl PartialEq for LimitError {
    fn eq(&self, other: &Self) -> (r: bool) {
        match (self, other) {
            (
                LimitError::Value { context: c, value: v },
                LimitError::Value { context: d, value: w },
            ) => same_text(c.as_str(), d.as_str()) && *v == *w,
            (LimitError::Other(a), LimitError::Other(b)) => same_text(a.as_str(), b.as_str()),
            _ => false,
        }
    }
}

impl vstd::std_specs::cmp::PartialEqSpecImpl for LimitError {
    open spec fn obeys_eq_spec() -> bool {
        true
    }

    open spec fn eq_spec(&self, other: &Self) -> bool {
        self@ == other@
    }
}

impl PartialEq for Error {
    fn eq(&self, other: &Self) -> (r: bool) {
        match (self, other) {
            (Error::Io { context: c, source: s }, Error::Io { context: d, source: t }) =>
                same_context(c, d) && same_text(s.kind.as_str(), t.kind.as_str()) && same_text(
                s.message.as_str(),
                t.message.as_str(),
            ),
            (Error::InvalidArchive(a), Error::InvalidArchive(b)) => a.eq(b),
            (Error::Unsupported(a), Error::Unsupported(b)) => a.eq(b),
            (Error::NonUtf8Filename { entry_no: n }, Error::NonUtf8Filename { entry_no: m }) => *n
                == *m,
            (Error::LimitExceeded(a), Error::LimitExceeded(b)) => a.eq(b),
            (Error::Message(a), Error::Message(b)) => same_text(a.as_str(), b.as_str()),
            _ => false,
        }
    }
}

impl vstd::std_specs::cmp::PartialEqSpecImpl for Error {
    open spec fn obeys_eq_spec() -> bool {
        true
    }

    open spec fn eq_spec(&self, other: &Self) -> bool {
        self@ == other@
    }
}

impl Eq for Error {

}

impl Eq for ArchiveError {

}

impl Eq for UnsupportedFeature {

}

impl Eq for LimitError {

}

impl PartialEq<&str> for Error {
    fn eq(&self, other: &&str) -> (r: bool) {
        self.eq_str(*other)
    }
}

impl vstd::std_specs::cmp::PartialEqSpecImpl<&str> for Error {
    open spec fn obeys_eq_spec() -> bool {
        true
    }

    open spec fn eq_spec(&self, other: &&str) -> bool {
        self@.is_described_by(other@)
    }
}

impl PartialEq<String> for Error {
    fn eq(&self, other: &String) -> (r: bool) {
        self.eq_str(other.as_str())
    }
}

impl vstd::std_specs::cmp::PartialEqSpecImpl<String> for Error {
    open spec fn obeys_eq_spec() -> bool {
        true
    }

    open spec fn eq_spec(&self, other: &String) -> bool {
        self@.is_described_by(other@)
    }
}

impl PartialEq<Error> for &str {
    fn eq(&self, other: &Error) -> (r: bool) {
        other.eq_str(*self)
    }
}

impl vstd::std_specs::cmp::PartialEqSpecImpl<Error> for &str {
    open spec fn obeys_eq_spec() -> bool {
        true
    }

    open spec fn eq_spec(&self, other: &Error) -> bool {
        other@.is_described_by(self@)
    }
}

impl PartialEq<Error> for String {
    fn eq(&self, other: &Error) -> (r: bool) {
        other.eq_str(self.as_str())
    }
}

impl vstd::std_specs::cmp::PartialEqSpecImpl<Error> for String {
    open spec fn obeys_eq_spec() -> bool {
        true
    }

    open spec fn eq_spec(&self, other: &Error) -> bool {
        other@.is_described_by(self@)
    }
}

impl ArchiveError {
    /// The message for this fault.
    pub fn to_string(&self) -> (s: String)
        ensures
            s@ == self@.text(),
    {
        match self {
            ArchiveError::TooSmall => String::from_str(
                "file is too small to be a valid ZIP archive",
            ),
            ArchiveError::EocdNotFound => String::from_str(
                "End of Central Directory record not found; not a valid ZIP archive",
            ),
            ArchiveError::UnexpectedEof { part, entry_no } => {
                let mut s = String::from_str("unexpected EOF reading ");
                s.append(part.as_str());
                if let Some(n) = entry_no {
                    s.append(" at entry ");
                    s.append(decimal_text(*n as u128).as_str());
                }
                s
            },
            ArchiveError::InvalidSignature { record, entry_no, offset } => {
                let mut s = String::from_str("invalid ");
                s.append(*record);
                s.append(" signature");
                match (entry_no, offset) {
                    (Some(n), Some(o)) => {
                        s.append(" at entry ");
                        s.append(decimal_text(*n as u128).as_str());
                        s.append(" (offset ");
                        s.append(hexadecimal_text(*o as u128).as_str());
                        s.append(")");
                    },
                    (Some(n), None) => {
                        s.append(" at entry ");
                        s.append(decimal_text(*n as u128).as_str());
                    },
                    (None, Some(o)) => {
                        s.append(" at offset ");
                        s.append(hexadecimal_text(*o as u128).as_str());
                    },
                    (None, None) => {},
                }
                s
            },
            ArchiveError::CentralDirectoryRange { offset, size, file_len } => {
                let mut s = numbered(
                    "Central Directory range exceeds file length: offset ",
                    *offset as u128,
                    ", size ",
                );
                s.append(decimal_text(*size as u128).as_str());
                s.append(", file length ");
                s.append(decimal_text(*file_len as u128).as_str());
                s
            },
            ArchiveError::CentralDirectoryOverlap { offset, size, limit } => {
                let mut s = numbered(
                    "Central Directory overlaps end records: offset ",
                    *offset as u128,
                    ", size ",
                );
                s.append(decimal_text(*size as u128).as_str());
                s.append(", limit ");
                s.append(decimal_text(*limit as u128).as_str());
                s
            },
            ArchiveError::Other(text) => text.clone(),
        }
    }
}

impl UnsupportedFeature {
    /// The message for this feature.
    pub fn to_string(&self) -> (s: String)
        ensures
            s@ == self@.text(),
    {
        match self {
            UnsupportedFeature::MultiDisk => String::from_str(
                "multi-disk ZIP archives are not supported",
            ),
            UnsupportedFeature::MultiDiskZip64 => String::from_str(
                "multi-disk ZIP64 archives are not supported",
            ),
            UnsupportedFeature::EntryCountMismatch => String::from_str(
                "entry count mismatch; multi-disk ZIP may be unsupported",
            ),
            UnsupportedFeature::Other(text) => text.clone(),
        }
    }
}

impl LimitError {
    /// The message for this limit.
    pub fn to_string(&self) -> (s: String)
        ensures
            s@ == self@.text(),
    {
        match self {
            LimitError::Value { context, value } => {
                let mut s = context.clone();
                s.append(": ");
                s.append(decimal_text(*value as u128).as_str());
                s
            },
            LimitError::Other(text) => text.clone(),
        }
    }
}

impl Error {
    /// A failed read or write, with what was being done.
    pub fn io_context(context: &str, source: IoError) -> (r: Self)
        ensures
            r@ == (ErrorModel::Io {
                context: Some(context@),
                kind: source.kind@,
                message: source.message@,
            }),
    {
        Error::Io { context: Some(String::from_str(context)), source }
    }

    pub fn invalid_archive(message: &str) -> (r: Self)
        ensures
            r@ == invalid(message@),
    {
        Error::InvalidArchive(ArchiveError::Other(String::from_str(message)))
    }

    pub fn unsupported(message: &str) -> (r: Self)
        ensures
            r@ == ErrorModel::Unsupported(UnsupportedModel::Other(message@)),
    {
        Error::Unsupported(UnsupportedFeature::Other(String::from_str(message)))
    }

    pub fn limit_exceeded(message: &str) -> (r: Self)
        ensures
            r@ == limit(message@),
    {
        Error::LimitExceeded(LimitError::Other(String::from_str(message)))
    }

    /// The failure of a read that asked for more bytes than there are.
    pub fn end_of_input() -> (r: Self)
        ensures
            r@ == end_of_input(),
    {
        Error::Io {
            context: None,
            source: IoError {
                kind: String::from_str("UnexpectedEof"),
                message: String::from_str("failed to fill whole buffer"),
            },
        }
    }

    /// The whole message that a user is shown.
    pub fn to_string(&self) -> (s: String)
        ensures
            s@ == self@.text(),
    {
        match self {
            Error::Io { context, source } => {
                let mut s = String::from_str("I/O error: ");
                if let Some(context) = context {
                    s.append(context.as_str());
                    s.append(": ");
                }
                s.append(source.message.as_str());
                s
            },
            Error::InvalidArchive(fault) => String::from_str("Invalid ZIP archive: ").concat(
                fault.to_string().as_str(),
            ),
            Error::Unsupported(feature) => String::from_str("Unsupported ZIP feature: ").concat(
                feature.to_string().as_str(),
            ),
            Error::NonUtf8Filename { entry_no } => numbered(
                "entry ",
                *entry_no as u128,
                " has a non-UTF-8 filename; rerun with --not-utf-8 to leave filename bytes and bit 11 unchanged",
            ),
            Error::LimitExceeded(limit) => String::from_str("ZIP limit exceeded: ").concat(
                limit.to_string().as_str(),
            ),
            Error::Message(text) => text.clone(),
        }
    }

    /// Whether the message holds `pat`.
    pub fn contains(&self, pat: &str) -> (r: bool)
        ensures
            r == crate::text::occurs(self@.text(), pat@),
    {
        text_contains(self.to_string().as_str(), pat)
    }

    /// Whether `other` is the message, with or without the words for its class.
    pub fn eq_str(&self, other: &str) -> (r: bool)
        ensures
            r == self@.is_described_by(other@),
    {
        if same_text(self.to_string().as_str(), other) {
            return true;
        }
        match self {
            Error::Io { source, .. } => same_text(source.message.as_str(), other),
            Error::InvalidArchive(fault) => same_text(fault.to_string().as_str(), other),
            Error::Unsupported(feature) => same_text(feature.to_string().as_str(), other),
            Error::LimitExceeded(limit) => same_text(limit.to_string().as_str(), other),
            Error::Message(text) => same_text(text.as_str(), other),
            Error::NonUtf8Filename { .. } => false,
        }
    }
}

impl From<IoError> for Error {
    fn from(err: IoError) -> (r: Self) {
        Error::Io { context: None, source: err }
    }
}

impl vstd::std_specs::convert::FromSpecImpl<IoError> for Error {
    open spec fn obeys_from_spec() -> bool {
        true
    }

    open spec fn from_spec(err: IoError) -> Self {
        Error::Io { context: None, source: err }
    }
}

impl From<String> for Error {
    fn from(msg: String) -> (r: Self) {
        Error::Message(msg)
    }
}

impl vstd::std_specs::convert::FromSpecImpl<String> for Error {
    open spec fn obeys_from_spec() -> bool {
        true
    }

    open spec fn from_spec(msg: String) -> Self {
        Error::Message(msg)
    }
}

impl From<&str> for Error {
    fn from(msg: &str) -> (r: Self)
        ensures
            r@ == ErrorModel::Message(msg@),
    {
        Error::Message(String::from_str(msg))
    }
}

impl vstd::std_specs::convert::FromSpecImpl<&str> for Error {
    open spec fn obeys_from_spec() -> bool {
        false
    }

    open spec fn from_spec(msg: &str) -> Self {
        arbitrary()
    }
}

/// A message ends with its detail, and either describes the error; nothing that the message does
/// not end with describes it.
pub proof fn law_text_ends_with_detail(e: ErrorModel, text: Seq<char>)
    ensures
        e.is_described_by(e.text()),
        e.is_described_by(e.detail()),
        e.is_described_by(text) ==> text.is_suffix_of(e.text()),
        e is Message || e is NonUtf8Filename ==> e.detail() == e.text(),
        e is InvalidArchive ==> e.text() == "Invalid ZIP archive: "@ + e.detail(),
        e is Unsupported ==> e.text() == "Unsupported ZIP feature: "@ + e.detail(),
        e is LimitExceeded ==> e.text() == "ZIP limit exceeded: "@ + e.detail(),
{
    let all = e.text();
    let detail = e.detail();
    assert(all.subrange(all.len() - detail.len(), all.len() as int) =~= detail);
    assert(all.subrange(0, all.len() as int) =~= all);
}

/// What an input or output error says holds where it happened, if that is known, and what went
/// wrong.
pub proof fn law_io_text(context: Seq<char>, kind: Seq<char>, text: Seq<char>)
    ensures
        ({
            let bare = ErrorModel::Io { context: None, kind, message: text };
            let placed = ErrorModel::Io { context: Some(context), kind, message: text };
            &&& bare.detail() == text
            &&& placed.detail() == text
            &&& bare.text() == "I/O error: "@ + text
            &&& occurs(placed.text(), context)
            &&& (": "@ + text).is_suffix_of(placed.text())
        }),
{
    let placed = ErrorModel::Io { context: Some(context), kind, message: text };
    let end = ": "@ + text;
    let all = placed.text();
    assert(all =~= "I/O error: "@ + context + end);
    law_occurs("I/O error: "@, context, end, all);
    assert(all.subrange(all.len() - end.len(), all.len() as int) =~= end);
}

/// A text ends with its last part.
proof fn lemma_ends_with(a: Seq<char>, b: Seq<char>)
    ensures
        b.is_suffix_of(a + b),
{
    assert((a + b).subrange(a.len() as int, (a + b).len() as int) =~= b);
}

/// What an error says of an entry or of a place in the file holds the number of the entry, or the
/// numbers of the place.
pub proof fn law_texts_hold_numbers(n: u64, offset: u64, size: u64, end: u64, part: Seq<char>)
    ensures
        (" at entry "@ + decimal_of(n)).is_suffix_of(
            (ArchiveErrorModel::UnexpectedEof { part, entry_no: Some(n) }).text(),
        ),
        part.is_suffix_of((ArchiveErrorModel::UnexpectedEof { part, entry_no: None }).text()),
        (decimal_of(offset) + ", size "@ + decimal_of(size) + ", file length "@ + decimal_of(
            end,
        )).is_suffix_of(
            (ArchiveErrorModel::CentralDirectoryRange { offset, size, file_len: end }).text(),
        ),
        (decimal_of(offset) + ", size "@ + decimal_of(size) + ", limit "@ + decimal_of(
            end,
        )).is_suffix_of(
            (ArchiveErrorModel::CentralDirectoryOverlap { offset, size, limit: end }).text(),
        ),
        (": "@ + decimal_of(n)).is_suffix_of(
            (LimitModel::Value { context: part, value: n }).text(),
        ),
        part.is_prefix_of((LimitModel::Value { context: part, value: n }).text()),
{
    let eof = (ArchiveErrorModel::UnexpectedEof { part, entry_no: Some(n) }).text();
    let at = " at entry "@ + decimal_of(n);
    assert(eof =~= "unexpected EOF reading "@ + part + at);
    lemma_ends_with("unexpected EOF reading "@ + part, at);
    lemma_ends_with("unexpected EOF reading "@, part);
    let range = (ArchiveErrorModel::CentralDirectoryRange { offset, size, file_len: end }).text();
    let numbers = decimal_of(offset) + ", size "@ + decimal_of(size) + ", file length "@
        + decimal_of(end);
    assert(range =~= "Central Directory range exceeds file length: offset "@ + numbers);
    lemma_ends_with("Central Directory range exceeds file length: offset "@, numbers);
    let overlap = (ArchiveErrorModel::CentralDirectoryOverlap { offset, size, limit: end }).text();
    let limits = decimal_of(offset) + ", size "@ + decimal_of(size) + ", limit "@ + decimal_of(end);
    assert(overlap =~= "Central Directory overlaps end records: offset "@ + limits);
    lemma_ends_with("Central Directory overlaps end records: offset "@, limits);
    let value = (LimitModel::Value { context: part, value: n }).text();
    let last = ": "@ + decimal_of(n);
    assert(value =~= part + last);
    lemma_ends_with(part, last);
    assert(value.subrange(0, part.len() as int) =~= part);
}

/// A name that is not UTF-8 is told by the number of its entry, with the option that leaves names
/// as they are.
pub proof fn law_non_utf8_text(n: u64)
    ensures
        ({
            let text = (ErrorModel::NonUtf8Filename { entry_no: n }).text();
            &&& ("entry "@ + decimal_of(n)).is_prefix_of(text)
            &&& occurs(text, "--not-utf-8"@)
        }),
{
    let text = (ErrorModel::NonUtf8Filename { entry_no: n }).text();
    let first = "entry "@ + decimal_of(n);
    let rest =
        " has a non-UTF-8 filename; rerun with --not-utf-8 to leave filename bytes and bit 11 unchanged"@;
    reveal_strlit(
        " has a non-UTF-8 filename; rerun with --not-utf-8 to leave filename bytes and bit 11 unchanged",
    );
    reveal_strlit("--not-utf-8");
    assert(text == first + rest);
    assert(text.subrange(0, first.len() as int) =~= first);
    assert(rest.subrange(38, 49) =~= "--not-utf-8"@);
    assert(text =~= (first + rest.take(38)) + "--not-utf-8"@ + rest.skip(49));
    law_occurs(first + rest.take(38), "--not-utf-8"@, rest.skip(49), text);
}

/// An error that is made from a text shows that text, behind the words for its class.
pub proof fn law_made_errors(
    text: &str,
    kind: Seq<char>,
    archive: Error,
    feature: Error,
    limit: Error,
    line: String,
)
    requires
        call_ensures(Error::invalid_archive, (text,), archive),
        call_ensures(Error::unsupported, (text,), feature),
        call_ensures(Error::limit_exceeded, (text,), limit),
        call_ensures(super::io_err, (text,), line),
    ensures
        archive@.detail() == text@ && archive@.text() == "Invalid ZIP archive: "@ + text@,
        feature@.detail() == text@ && feature@.text() == "Unsupported ZIP feature: "@ + text@,
        limit@.detail() == text@ && limit@.text() == "ZIP limit exceeded: "@ + text@,
        line@ == (ErrorModel::Io { context: None, kind, message: text@ }).text(),
{
}

/// An error is found by any part of its message, and is described by the whole of it.
pub proof fn law_error_is_described(e: &Error, text: &str, found: bool, same: bool)
    requires
        call_ensures(Error::contains, (e, text), found),
        call_ensures(Error::eq_str, (e, text), same),
    ensures
        found <==> exists|a: Seq<char>, b: Seq<char>| e@.text() == #[trigger] (a + text@ + b),
        e@.text() == text@ ==> same,
        same ==> text@.is_suffix_of(e@.text()),
{
    if found {
        law_occurs(Seq::empty(), text@, Seq::empty(), e@.text());
    }
    if exists|a: Seq<char>, b: Seq<char>| e@.text() == #[trigger] (a + text@ + b) {
        let (a, b) = choose|a: Seq<char>, b: Seq<char>| e@.text() == #[trigger] (a + text@ + b);
        law_occurs(a, text@, b, e@.text());
    }
    law_text_ends_with_detail(e@, text@);
}

} // verus!
