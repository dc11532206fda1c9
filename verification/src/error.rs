use vstd::prelude::*;

verus! {

/// The ways an operation of this engine can fail.
///
/// Structural kinds mean the byte stream does not conform to PDF syntax at
/// the file level; lexical kinds mean no token could be formed; syntactic
/// kinds mean well-formed tokens violated the object grammar; `Io` carries
/// a failure surfaced by the underlying byte source.
#[derive(Clone, Copy, PartialEq, Eq, Structural, Debug)]
pub enum ErrorKind {
    /// The file does not begin with a `%PDF-` header and a known version.
    InvalidPdfFile,
    /// The backward scan over the file tail found no cross-reference offset.
    NoXrefTableFound,
    /// A cross-reference table line is not of the fixed-width entry form.
    InvalidCrossTableEntry,
    /// The trailer body parsed to something other than a dictionary.
    TrailerMustBeDictionary,
    /// The keyword `trailer` did not follow a cross-reference section.
    ExpectedTrailer,
    /// A trailer `Prev` offset pointed back into an already visited section.
    CircularXrefChain,
    /// A token could not be formed (bad number syntax, unterminated string).
    LexicalError,
    /// An identifier's bytes are not well-formed UTF-8.
    InvalidText,
    /// The input ended where a token or a line was still needed.
    EndOfInput,
    /// A token was well formed but cannot start or continue an object.
    UnexpectedToken,
    /// A dictionary key position held something other than a name.
    MalformedDictionary,
    /// A `/` was not followed by an identifier.
    ExpectedIdentifier,
    /// `number number` was followed by neither `R` nor `obj`.
    ExpectedReferenceOrDefinition,
    /// The underlying byte source failed.
    Io,
}

/// An error of this engine; it carries its [`ErrorKind`] alone.
#[derive(Clone, Copy, PartialEq, Eq, Structural, Debug)]
pub struct Error {
    pub kind: ErrorKind,
}

impl Error {
    /// Wraps a kind into an [`Error`].
    pub fn new(kind: ErrorKind) -> (e: Error)
        ensures
            e.kind == kind,
    {
        Error { kind }
    }

    /// The kind of this error.
    pub fn kind(&self) -> (k: ErrorKind)
        ensures
            k == self.kind,
    {
        self.kind
    }
}

} // verus!
