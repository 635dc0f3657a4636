//! Error types.
//!
//! An error always carries the position in the source buffer. Positions are
//! fields of the [`Error`] variants, not of the kinds, so that an outer layer
//! can wrap an error without losing where it happened.
use vstd::prelude::*;
use vstd::string::*;

use crate::text;

verus! {

/// An error of any layer.
#[derive(Debug, PartialEq, Eq)]
#[allow(inconsistent_fields)]
#[non_exhaustive]
pub enum Error {
    /// The ZIP container is malformed; `offset` is a position in the file.
    Zip { kind: ZipError, offset: u64 },
    /// A DEFLATE stream could not be packed or unpacked.
    Deflate { kind: DeflateError, in_off: u64, out_off: u64 },
    /// XML could not be parsed; `offset` is a position inside the part.
    Xml { kind: XmlError, offset: u32 },
    /// The OPC package is malformed.
    Opc(OpcError),
    /// The SpreadsheetML model is malformed.
    Xlsx(XlsxError),
    /// A formula could not be parsed; `pos` is a position in its text.
    Formula { kind: FormulaError, pos: u32 },
    /// A quota of [`crate::limits::Limits`] was exceeded.
    Limit(LimitError),
    /// A well-formed construct that is not supported.
    Unsupported(&'static str),
    /// Adds the name of a package part to an error of a lower layer.
    InPart { part: String, source: Box<Error> },
}

/// What is wrong with a ZIP container.
#[derive(Debug, Clone, Copy, PartialEq, Eq)]
#[allow(inconsistent_fields)]
#[non_exhaustive]
pub enum ZipError {
    NoEndOfCentralDirectory,
    NoZip64Locator,
    BadSignature { expected: u32, found: u32 },
    DirectoryOutOfBounds,
    DataOutOfBounds,
    OverlappingEntries,
    NameMismatch,
    EntryCountMismatch,
    UnsupportedMethod(u16),
    Encrypted,
    MultiDisk,
    CrcMismatch { expected: u32, actual: u32 },
    SizeMismatch { expected: u64, actual: u64 },
    BadExtraField,
    Truncated,
    OffsetOverflow,
}

/// What is wrong with a DEFLATE stream.
#[derive(Debug, Clone, Copy, PartialEq, Eq)]
#[non_exhaustive]
pub enum DeflateError {
    /// The stream ended before its final block did.
    UnexpectedEof,
    /// The block type field holds the reserved value 3.
    ReservedBlockType,
    /// LEN and NLEN of a stored block are not complements.
    BadStoredLength,
    /// The Huffman code lengths sum to more than one.
    OversubscribedTree,
    /// The code lengths sum to less than one, with more than one symbol in use.
    IncompleteTree,
    /// A code that stands for nothing.
    InvalidCode,
    /// A match reaches back further than the output produced so far.
    DistanceTooFar,
    /// A run of code lengths has nothing to repeat or does not fit.
    BadCodeLengthRepeat,
}

/// What is wrong with XML.
#[derive(Debug, Clone, Copy, PartialEq, Eq)]
#[non_exhaustive]
pub enum XmlError {
    UnexpectedEof,
    UnexpectedByte(u8),
    MismatchedTag,
    UnbalancedTag,
    MultipleRoots,
    NoRoot,
    UnquotedAttribute,
    DuplicateAttribute,
    UnknownEntity,
    BadCharRef,
    IllegalChar(u32),
    NotUtf8,
    UndeclaredPrefix,
    ReservedPrefix,
    BadName,
    DoctypeForbidden,
}

/// What is wrong with an OPC package.
#[derive(Debug, Clone, PartialEq, Eq)]
#[non_exhaustive]
pub enum OpcError {
    NoContentTypes,
    UnknownContentType(String),
    BadPartName(String),
    PartNotFound(String),
    PartExists(String),
    BadRelationships(String),
    RelationshipNotFound(String),
}

/// What is wrong with a SpreadsheetML model.
#[derive(Debug, Clone, PartialEq, Eq)]
#[non_exhaustive]
pub enum XlsxError {
    NoWorkbook,
    SheetNotFound(String),
    BadCellRef(String),
    SharedStringOutOfRange(u32),
    UnknownCellType(String),
    BadNumber(String),
    BadSheetData,
}

/// What is wrong with a formula.
#[derive(Debug, Clone, Copy, PartialEq, Eq)]
#[non_exhaustive]
pub enum FormulaError {
    UnexpectedEof,
    UnexpectedChar(char),
    UnbalancedParen,
    UnterminatedString,
    BadReference,
    TooDeep,
}

/// A quota was exceeded. Kept apart from the other errors: it does not mean
/// that the file is broken, but that it may be an attack.
#[derive(Debug, Clone, Copy, PartialEq, Eq)]
#[non_exhaustive]
pub enum LimitError {
    InputTooLarge { got: u64, max: u64 },
    TooManyEntries { got: u64, max: u64 },
    PartTooLarge { got: u64, max: u64 },
    TotalUncompressed { got: u64, max: u64 },
    CompressionRatio { got: u64, max: u64 },
    XmlDepth { got: u64, max: u64 },
    TooManyAttrs { got: u64, max: u64 },
    TooManyNodes { got: u64, max: u64 },
    NameTooLong { got: u64, max: u64 },
}

/// Two errors of a package are the same.
pub open spec fn opc_alike(a: OpcError, b: OpcError) -> bool {
    match (a, b) {
        (OpcError::NoContentTypes, OpcError::NoContentTypes) => true,
        (OpcError::UnknownContentType(s), OpcError::UnknownContentType(t)) => s@ == t@,
        (OpcError::BadPartName(s), OpcError::BadPartName(t)) => s@ == t@,
        (OpcError::PartNotFound(s), OpcError::PartNotFound(t)) => s@ == t@,
        (OpcError::PartExists(s), OpcError::PartExists(t)) => s@ == t@,
        (OpcError::BadRelationships(s), OpcError::BadRelationships(t)) => s@ == t@,
        (OpcError::RelationshipNotFound(s), OpcError::RelationshipNotFound(t)) => s@ == t@,
        _ => false,
    }
}

/// Two errors of a model are the same.
pub open spec fn xlsx_alike(a: XlsxError, b: XlsxError) -> bool {
    match (a, b) {
        (XlsxError::SheetNotFound(s), XlsxError::SheetNotFound(t)) => s@ == t@,
        (XlsxError::BadCellRef(s), XlsxError::BadCellRef(t)) => s@ == t@,
        (XlsxError::UnknownCellType(s), XlsxError::UnknownCellType(t)) => s@ == t@,
        (XlsxError::BadNumber(s), XlsxError::BadNumber(t)) => s@ == t@,
        _ => a == b,
    }
}

/// Two errors are the same.
pub open spec fn alike(a: Error, b: Error) -> bool
    decreases a,
{
    match (a, b) {
        (Error::Opc(x), Error::Opc(y)) => opc_alike(x, y),
        (Error::Xlsx(x), Error::Xlsx(y)) => xlsx_alike(x, y),
        (Error::InPart { part: p, source: s }, Error::InPart { part: q, source: u }) => p@ == q@
            && alike(*s, *u),
        _ => a == b,
    }
}

fn opc_copy(e: &OpcError) -> (r: OpcError)
    ensures
        opc_alike(r, *e),
{
    match e {
        OpcError::NoContentTypes => OpcError::NoContentTypes,
        OpcError::UnknownContentType(s) => OpcError::UnknownContentType(s.as_str().to_owned()),
        OpcError::BadPartName(s) => OpcError::BadPartName(s.as_str().to_owned()),
        OpcError::PartNotFound(s) => OpcError::PartNotFound(s.as_str().to_owned()),
        OpcError::PartExists(s) => OpcError::PartExists(s.as_str().to_owned()),
        OpcError::BadRelationships(s) => OpcError::BadRelationships(s.as_str().to_owned()),
        OpcError::RelationshipNotFound(s) => OpcError::RelationshipNotFound(
            s.as_str().to_owned(),
        ),
    }
}

fn xlsx_copy(e: &XlsxError) -> (r: XlsxError)
    ensures
        xlsx_alike(r, *e),
{
    match e {
        XlsxError::NoWorkbook => XlsxError::NoWorkbook,
        XlsxError::SheetNotFound(s) => XlsxError::SheetNotFound(s.as_str().to_owned()),
        XlsxError::BadCellRef(s) => XlsxError::BadCellRef(s.as_str().to_owned()),
        XlsxError::SharedStringOutOfRange(n) => XlsxError::SharedStringOutOfRange(*n),
        XlsxError::UnknownCellType(s) => XlsxError::UnknownCellType(s.as_str().to_owned()),
        XlsxError::BadNumber(s) => XlsxError::BadNumber(s.as_str().to_owned()),
        XlsxError::BadSheetData => XlsxError::BadSheetData,
    }
}

fn error_copy(e: &Error) -> (r: Error)
    ensures
        alike(r, *e),
    decreases e,
{
    match e {
        Error::Zip { kind, offset } => Error::Zip { kind: *kind, offset: *offset },
        Error::Deflate { kind, in_off, out_off } => Error::Deflate {
            kind: *kind,
            in_off: *in_off,
            out_off: *out_off,
        },
        Error::Xml { kind, offset } => Error::Xml { kind: *kind, offset: *offset },
        Error::Opc(o) => Error::Opc(opc_copy(o)),
        Error::Xlsx(x) => Error::Xlsx(xlsx_copy(x)),
        Error::Formula { kind, pos } => Error::Formula { kind: *kind, pos: *pos },
        Error::Limit(l) => Error::Limit(*l),
        Error::Unsupported(s) => Error::Unsupported(s),
        Error::InPart { part, source } => Error::InPart {
            part: part.as_str().to_owned(),
            source: Box::new(error_copy(source)),
        },
    }
}

impl Clone for Error {
    fn clone(&self) -> (r: Self)
        ensures
            alike(r, *self),
    {
        error_copy(self)
    }
}

impl Error {
    /// Whether the error, under any number of part names, is a quota.
    pub open spec fn limit_flag(self) -> bool
        decreases self,
    {
        match self {
            Error::Limit(_) => true,
            Error::InPart { part, source } => (*source).limit_flag(),
            _ => false,
        }
    }

    /// Wraps the error in the name of the package part it happened in.
    #[must_use]
    pub fn in_part(self, part: &str) -> (r: Self)
        ensures
            r matches Error::InPart { part: p, source } && p@ == part@ && *source == self,
            r.limit_flag() == self.limit_flag(),
    {
        Error::InPart { part: part.to_owned(), source: Box::new(self) }
    }

    /// `true` when the error is an exceeded quota and not damaged data.
    #[must_use]
    pub fn is_limit(&self) -> (r: bool)
        ensures
            r == self.limit_flag(),
        decreases self,
    {
        match self {
            Error::Limit(_) => true,
            Error::InPart { source, .. } => source.is_limit(),
            _ => false,
        }
    }
}

impl From<LimitError> for Error {
    fn from(e: LimitError) -> (r: Self) {
        Error::Limit(e)
    }
}

impl vstd::std_specs::convert::FromSpecImpl<LimitError> for Error {
    open spec fn obeys_from_spec() -> bool {
        true
    }

    open spec fn from_spec(e: LimitError) -> Self {
        Error::Limit(e)
    }
}

impl From<OpcError> for Error {
    fn from(e: OpcError) -> (r: Self) {
        Error::Opc(e)
    }
}

impl vstd::std_specs::convert::FromSpecImpl<OpcError> for Error {
    open spec fn obeys_from_spec() -> bool {
        true
    }

    open spec fn from_spec(e: OpcError) -> Self {
        Error::Opc(e)
    }
}

impl From<XlsxError> for Error {
    fn from(e: XlsxError) -> (r: Self) {
        Error::Xlsx(e)
    }
}

impl vstd::std_specs::convert::FromSpecImpl<XlsxError> for Error {
    open spec fn obeys_from_spec() -> bool {
        true
    }

    open spec fn from_spec(e: XlsxError) -> Self {
        Error::Xlsx(e)
    }
}

impl ZipError {
    /// The name of the kind with its values.
    pub open spec fn label(&self) -> Seq<char> {
        match self {
            ZipError::NoEndOfCentralDirectory => "NoEndOfCentralDirectory"@,
            ZipError::NoZip64Locator => "NoZip64Locator"@,
            ZipError::BadSignature { expected, found } => "BadSignature { expected: "@ + text::decimal(*expected as nat) + ", found: "@ + text::decimal(*found as nat) + " }"@,
            ZipError::DirectoryOutOfBounds => "DirectoryOutOfBounds"@,
            ZipError::DataOutOfBounds => "DataOutOfBounds"@,
            ZipError::OverlappingEntries => "OverlappingEntries"@,
            ZipError::NameMismatch => "NameMismatch"@,
            ZipError::EntryCountMismatch => "EntryCountMismatch"@,
            ZipError::UnsupportedMethod(v) => "UnsupportedMethod("@ + text::decimal(*v as nat) + ")"@,
            ZipError::Encrypted => "Encrypted"@,
            ZipError::MultiDisk => "MultiDisk"@,
            ZipError::CrcMismatch { expected, actual } => "CrcMismatch { expected: "@ + text::decimal(*expected as nat) + ", actual: "@ + text::decimal(*actual as nat) + " }"@,
            ZipError::SizeMismatch { expected, actual } => "SizeMismatch { expected: "@ + text::decimal(*expected as nat) + ", actual: "@ + text::decimal(*actual as nat) + " }"@,
            ZipError::BadExtraField => "BadExtraField"@,
            ZipError::Truncated => "Truncated"@,
            ZipError::OffsetOverflow => "OffsetOverflow"@,
        }
    }

    fn push_label(&self, s: &mut String)
        ensures
            final(s)@ == old(s)@ + self.label(),
    {
        match self {
            ZipError::NoEndOfCentralDirectory => s.append("NoEndOfCentralDirectory"),
            ZipError::NoZip64Locator => s.append("NoZip64Locator"),
            ZipError::BadSignature { expected, found } => {
                s.append("BadSignature { expected: ");
                text::push_decimal(s, *expected as u64);
                s.append(", found: ");
                text::push_decimal(s, *found as u64);
                s.append(" }");
            },
            ZipError::DirectoryOutOfBounds => s.append("DirectoryOutOfBounds"),
            ZipError::DataOutOfBounds => s.append("DataOutOfBounds"),
            ZipError::OverlappingEntries => s.append("OverlappingEntries"),
            ZipError::NameMismatch => s.append("NameMismatch"),
            ZipError::EntryCountMismatch => s.append("EntryCountMismatch"),
            ZipError::UnsupportedMethod(v) => {
                s.append("UnsupportedMethod(");
                text::push_decimal(s, *v as u64);
                s.append(")");
            },
            ZipError::Encrypted => s.append("Encrypted"),
            ZipError::MultiDisk => s.append("MultiDisk"),
            ZipError::CrcMismatch { expected, actual } => {
                s.append("CrcMismatch { expected: ");
                text::push_decimal(s, *expected as u64);
                s.append(", actual: ");
                text::push_decimal(s, *actual as u64);
                s.append(" }");
            },
            ZipError::SizeMismatch { expected, actual } => {
                s.append("SizeMismatch { expected: ");
                text::push_decimal(s, *expected as u64);
                s.append(", actual: ");
                text::push_decimal(s, *actual as u64);
                s.append(" }");
            },
            ZipError::BadExtraField => s.append("BadExtraField"),
            ZipError::Truncated => s.append("Truncated"),
            ZipError::OffsetOverflow => s.append("OffsetOverflow"),
        }
        assert(s@ =~= old(s)@ + self.label());
    }
}

impl DeflateError {
    /// The name of the kind with its values.
    pub open spec fn label(&self) -> Seq<char> {
        match self {
            DeflateError::UnexpectedEof => "UnexpectedEof"@,
            DeflateError::ReservedBlockType => "ReservedBlockType"@,
            DeflateError::BadStoredLength => "BadStoredLength"@,
            DeflateError::OversubscribedTree => "OversubscribedTree"@,
            DeflateError::IncompleteTree => "IncompleteTree"@,
            DeflateError::InvalidCode => "InvalidCode"@,
            DeflateError::DistanceTooFar => "DistanceTooFar"@,
            DeflateError::BadCodeLengthRepeat => "BadCodeLengthRepeat"@,
        }
    }

    fn push_label(&self, s: &mut String)
        ensures
            final(s)@ == old(s)@ + self.label(),
    {
        match self {
            DeflateError::UnexpectedEof => s.append("UnexpectedEof"),
            DeflateError::ReservedBlockType => s.append("ReservedBlockType"),
            DeflateError::BadStoredLength => s.append("BadStoredLength"),
            DeflateError::OversubscribedTree => s.append("OversubscribedTree"),
            DeflateError::IncompleteTree => s.append("IncompleteTree"),
            DeflateError::InvalidCode => s.append("InvalidCode"),
            DeflateError::DistanceTooFar => s.append("DistanceTooFar"),
            DeflateError::BadCodeLengthRepeat => s.append("BadCodeLengthRepeat"),
        }
        assert(s@ =~= old(s)@ + self.label());
    }
}

impl XmlError {
    /// The name of the kind with its values.
    pub open spec fn label(&self) -> Seq<char> {
        match self {
            XmlError::UnexpectedEof => "UnexpectedEof"@,
            XmlError::UnexpectedByte(v) => "UnexpectedByte("@ + text::decimal(*v as nat) + ")"@,
            XmlError::MismatchedTag => "MismatchedTag"@,
            XmlError::UnbalancedTag => "UnbalancedTag"@,
            XmlError::MultipleRoots => "MultipleRoots"@,
            XmlError::NoRoot => "NoRoot"@,
            XmlError::UnquotedAttribute => "UnquotedAttribute"@,
            XmlError::DuplicateAttribute => "DuplicateAttribute"@,
            XmlError::UnknownEntity => "UnknownEntity"@,
            XmlError::BadCharRef => "BadCharRef"@,
            XmlError::IllegalChar(v) => "IllegalChar("@ + text::decimal(*v as nat) + ")"@,
            XmlError::NotUtf8 => "NotUtf8"@,
            XmlError::UndeclaredPrefix => "UndeclaredPrefix"@,
            XmlError::ReservedPrefix => "ReservedPrefix"@,
            XmlError::BadName => "BadName"@,
            XmlError::DoctypeForbidden => "DoctypeForbidden"@,
        }
    }

    fn push_label(&self, s: &mut String)
        ensures
            final(s)@ == old(s)@ + self.label(),
    {
        match self {
            XmlError::UnexpectedEof => s.append("UnexpectedEof"),
            XmlError::UnexpectedByte(v) => {
                s.append("UnexpectedByte(");
                text::push_decimal(s, *v as u64);
                s.append(")");
            },
            XmlError::MismatchedTag => s.append("MismatchedTag"),
            XmlError::UnbalancedTag => s.append("UnbalancedTag"),
            XmlError::MultipleRoots => s.append("MultipleRoots"),
            XmlError::NoRoot => s.append("NoRoot"),
            XmlError::UnquotedAttribute => s.append("UnquotedAttribute"),
            XmlError::DuplicateAttribute => s.append("DuplicateAttribute"),
            XmlError::UnknownEntity => s.append("UnknownEntity"),
            XmlError::BadCharRef => s.append("BadCharRef"),
            XmlError::IllegalChar(v) => {
                s.append("IllegalChar(");
                text::push_decimal(s, *v as u64);
                s.append(")");
            },
            XmlError::NotUtf8 => s.append("NotUtf8"),
            XmlError::UndeclaredPrefix => s.append("UndeclaredPrefix"),
            XmlError::ReservedPrefix => s.append("ReservedPrefix"),
            XmlError::BadName => s.append("BadName"),
            XmlError::DoctypeForbidden => s.append("DoctypeForbidden"),
        }
        assert(s@ =~= old(s)@ + self.label());
    }
}

impl OpcError {
    /// The name of the kind with its values.
    pub open spec fn label(&self) -> Seq<char> {
        match self {
            OpcError::NoContentTypes => "NoContentTypes"@,
            OpcError::UnknownContentType(v) => "UnknownContentType("@ + text::quoted(v@) + ")"@,
            OpcError::BadPartName(v) => "BadPartName("@ + text::quoted(v@) + ")"@,
            OpcError::PartNotFound(v) => "PartNotFound("@ + text::quoted(v@) + ")"@,
            OpcError::PartExists(v) => "PartExists("@ + text::quoted(v@) + ")"@,
            OpcError::BadRelationships(v) => "BadRelationships("@ + text::quoted(v@) + ")"@,
            OpcError::RelationshipNotFound(v) => "RelationshipNotFound("@ + text::quoted(v@) + ")"@,
        }
    }

    fn push_label(&self, s: &mut String)
        ensures
            final(s)@ == old(s)@ + self.label(),
    {
        match self {
            OpcError::NoContentTypes => s.append("NoContentTypes"),
            OpcError::UnknownContentType(v) => {
                s.append("UnknownContentType(");
                s.append(text::debug_str(v.as_str()).as_str());
                s.append(")");
            },
            OpcError::BadPartName(v) => {
                s.append("BadPartName(");
                s.append(text::debug_str(v.as_str()).as_str());
                s.append(")");
            },
            OpcError::PartNotFound(v) => {
                s.append("PartNotFound(");
                s.append(text::debug_str(v.as_str()).as_str());
                s.append(")");
            },
            OpcError::PartExists(v) => {
                s.append("PartExists(");
                s.append(text::debug_str(v.as_str()).as_str());
                s.append(")");
            },
            OpcError::BadRelationships(v) => {
                s.append("BadRelationships(");
                s.append(text::debug_str(v.as_str()).as_str());
                s.append(")");
            },
            OpcError::RelationshipNotFound(v) => {
                s.append("RelationshipNotFound(");
                s.append(text::debug_str(v.as_str()).as_str());
                s.append(")");
            },
        }
        assert(s@ =~= old(s)@ + self.label());
    }
}

impl XlsxError {
    /// The name of the kind with its values.
    pub open spec fn label(&self) -> Seq<char> {
        match self {
            XlsxError::NoWorkbook => "NoWorkbook"@,
            XlsxError::SheetNotFound(v) => "SheetNotFound("@ + text::quoted(v@) + ")"@,
            XlsxError::BadCellRef(v) => "BadCellRef("@ + text::quoted(v@) + ")"@,
            XlsxError::SharedStringOutOfRange(v) => "SharedStringOutOfRange("@ + text::decimal(*v as nat) + ")"@,
            XlsxError::UnknownCellType(v) => "UnknownCellType("@ + text::quoted(v@) + ")"@,
            XlsxError::BadNumber(v) => "BadNumber("@ + text::quoted(v@) + ")"@,
            XlsxError::BadSheetData => "BadSheetData"@,
        }
    }

    fn push_label(&self, s: &mut String)
        ensures
            final(s)@ == old(s)@ + self.label(),
    {
        match self {
            XlsxError::NoWorkbook => s.append("NoWorkbook"),
            XlsxError::SheetNotFound(v) => {
                s.append("SheetNotFound(");
                s.append(text::debug_str(v.as_str()).as_str());
                s.append(")");
            },
            XlsxError::BadCellRef(v) => {
                s.append("BadCellRef(");
                s.append(text::debug_str(v.as_str()).as_str());
                s.append(")");
            },
            XlsxError::SharedStringOutOfRange(v) => {
                s.append("SharedStringOutOfRange(");
                text::push_decimal(s, *v as u64);
                s.append(")");
            },
            XlsxError::UnknownCellType(v) => {
                s.append("UnknownCellType(");
                s.append(text::debug_str(v.as_str()).as_str());
                s.append(")");
            },
            XlsxError::BadNumber(v) => {
                s.append("BadNumber(");
                s.append(text::debug_str(v.as_str()).as_str());
                s.append(")");
            },
            XlsxError::BadSheetData => s.append("BadSheetData"),
        }
        assert(s@ =~= old(s)@ + self.label());
    }
}

impl FormulaError {
    /// The name of the kind with its values.
    pub open spec fn label(&self) -> Seq<char> {
        match self {
            FormulaError::UnexpectedEof => "UnexpectedEof"@,
            FormulaError::UnexpectedChar(v) => "UnexpectedChar("@ + text::quoted_char(*v) + ")"@,
            FormulaError::UnbalancedParen => "UnbalancedParen"@,
            FormulaError::UnterminatedString => "UnterminatedString"@,
            FormulaError::BadReference => "BadReference"@,
            FormulaError::TooDeep => "TooDeep"@,
        }
    }

    fn push_label(&self, s: &mut String)
        ensures
            final(s)@ == old(s)@ + self.label(),
    {
        match self {
            FormulaError::UnexpectedEof => s.append("UnexpectedEof"),
            FormulaError::UnexpectedChar(v) => {
                s.append("UnexpectedChar(");
                s.append(text::debug_char(*v).as_str());
                s.append(")");
            },
            FormulaError::UnbalancedParen => s.append("UnbalancedParen"),
            FormulaError::UnterminatedString => s.append("UnterminatedString"),
            FormulaError::BadReference => s.append("BadReference"),
            FormulaError::TooDeep => s.append("TooDeep"),
        }
        assert(s@ =~= old(s)@ + self.label());
    }
}

impl LimitError {
    /// The name of the kind with its values.
    pub open spec fn label(&self) -> Seq<char> {
        match self {
            LimitError::InputTooLarge { got, max } => "InputTooLarge { got: "@ + text::decimal(*got as nat) + ", max: "@ + text::decimal(*max as nat) + " }"@,
            LimitError::TooManyEntries { got, max } => "TooManyEntries { got: "@ + text::decimal(*got as nat) + ", max: "@ + text::decimal(*max as nat) + " }"@,
            LimitError::PartTooLarge { got, max } => "PartTooLarge { got: "@ + text::decimal(*got as nat) + ", max: "@ + text::decimal(*max as nat) + " }"@,
            LimitError::TotalUncompressed { got, max } => "TotalUncompressed { got: "@ + text::decimal(*got as nat) + ", max: "@ + text::decimal(*max as nat) + " }"@,
            LimitError::CompressionRatio { got, max } => "CompressionRatio { got: "@ + text::decimal(*got as nat) + ", max: "@ + text::decimal(*max as nat) + " }"@,
            LimitError::XmlDepth { got, max } => "XmlDepth { got: "@ + text::decimal(*got as nat) + ", max: "@ + text::decimal(*max as nat) + " }"@,
            LimitError::TooManyAttrs { got, max } => "TooManyAttrs { got: "@ + text::decimal(*got as nat) + ", max: "@ + text::decimal(*max as nat) + " }"@,
            LimitError::TooManyNodes { got, max } => "TooManyNodes { got: "@ + text::decimal(*got as nat) + ", max: "@ + text::decimal(*max as nat) + " }"@,
            LimitError::NameTooLong { got, max } => "NameTooLong { got: "@ + text::decimal(*got as nat) + ", max: "@ + text::decimal(*max as nat) + " }"@,
        }
    }

    fn push_label(&self, s: &mut String)
        ensures
            final(s)@ == old(s)@ + self.label(),
    {
        match self {
            LimitError::InputTooLarge { got, max } => {
                s.append("InputTooLarge { got: ");
                text::push_decimal(s, *got as u64);
                s.append(", max: ");
                text::push_decimal(s, *max as u64);
                s.append(" }");
            },
            LimitError::TooManyEntries { got, max } => {
                s.append("TooManyEntries { got: ");
                text::push_decimal(s, *got as u64);
                s.append(", max: ");
                text::push_decimal(s, *max as u64);
                s.append(" }");
            },
            LimitError::PartTooLarge { got, max } => {
                s.append("PartTooLarge { got: ");
                text::push_decimal(s, *got as u64);
                s.append(", max: ");
                text::push_decimal(s, *max as u64);
                s.append(" }");
            },
            LimitError::TotalUncompressed { got, max } => {
                s.append("TotalUncompressed { got: ");
                text::push_decimal(s, *got as u64);
                s.append(", max: ");
                text::push_decimal(s, *max as u64);
                s.append(" }");
            },
            LimitError::CompressionRatio { got, max } => {
                s.append("CompressionRatio { got: ");
                text::push_decimal(s, *got as u64);
                s.append(", max: ");
                text::push_decimal(s, *max as u64);
                s.append(" }");
            },
            LimitError::XmlDepth { got, max } => {
                s.append("XmlDepth { got: ");
                text::push_decimal(s, *got as u64);
                s.append(", max: ");
                text::push_decimal(s, *max as u64);
                s.append(" }");
            },
            LimitError::TooManyAttrs { got, max } => {
                s.append("TooManyAttrs { got: ");
                text::push_decimal(s, *got as u64);
                s.append(", max: ");
                text::push_decimal(s, *max as u64);
                s.append(" }");
            },
            LimitError::TooManyNodes { got, max } => {
                s.append("TooManyNodes { got: ");
                text::push_decimal(s, *got as u64);
                s.append(", max: ");
                text::push_decimal(s, *max as u64);
                s.append(" }");
            },
            LimitError::NameTooLong { got, max } => {
                s.append("NameTooLong { got: ");
                text::push_decimal(s, *got as u64);
                s.append(", max: ");
                text::push_decimal(s, *max as u64);
                s.append(" }");
            },
        }
        assert(s@ =~= old(s)@ + self.label());
    }
}

impl Error {
    /// The message for a reader.
    pub open spec fn message(&self) -> Seq<char>
        decreases self,
    {
        match self {
            Error::Zip { kind, offset } => "zip: "@ + kind.label() + " на офсете "@
                + text::decimal(*offset as nat),
            Error::Deflate { kind, in_off, out_off } => "deflate: "@ + kind.label() + " (вход "@
                + text::decimal(*in_off as nat) + ", выход "@ + text::decimal(*out_off as nat)
                + ")"@,
            Error::Xml { kind, offset } => "xml: "@ + kind.label() + " на офсете "@
                + text::decimal(*offset as nat),
            Error::Opc(kind) => "opc: "@ + kind.label(),
            Error::Xlsx(kind) => "xlsx: "@ + kind.label(),
            Error::Formula { kind, pos } => "формула: "@ + kind.label() + " на позиции "@
                + text::decimal(*pos as nat),
            Error::Limit(kind) => "превышена квота: "@ + kind.label(),
            Error::Unsupported(what) => "не поддерживается: "@ + what@,
            Error::InPart { part, source } => "в части "@ + part@ + ": "@ + source.message(),
        }
    }

    fn push_message(&self, s: &mut String)
        ensures
            final(s)@ == old(s)@ + self.message(),
        decreases self,
    {
        match self {
            Error::Zip { kind, offset } => {
                s.append("zip: ");
                kind.push_label(s);
                s.append(" на офсете ");
                text::push_decimal(s, *offset);
            },
            Error::Deflate { kind, in_off, out_off } => {
                s.append("deflate: ");
                kind.push_label(s);
                s.append(" (вход ");
                text::push_decimal(s, *in_off);
                s.append(", выход ");
                text::push_decimal(s, *out_off);
                s.append(")");
            },
            Error::Xml { kind, offset } => {
                s.append("xml: ");
                kind.push_label(s);
                s.append(" на офсете ");
                text::push_decimal(s, *offset as u64);
            },
            Error::Opc(kind) => {
                s.append("opc: ");
                kind.push_label(s);
            },
            Error::Xlsx(kind) => {
                s.append("xlsx: ");
                kind.push_label(s);
            },
            Error::Formula { kind, pos } => {
                s.append("формула: ");
                kind.push_label(s);
                s.append(" на позиции ");
                text::push_decimal(s, *pos as u64);
            },
            Error::Limit(kind) => {
                s.append("превышена квота: ");
                kind.push_label(s);
            },
            Error::Unsupported(what) => {
                s.append("не поддерживается: ");
                s.append(what);
            },
            Error::InPart { part, source } => {
                s.append("в части ");
                s.append(part.as_str());
                s.append(": ");
                source.push_message(s);
            },
        }
        assert(s@ =~= old(s)@ + self.message());
    }

    /// The message for a reader.
    #[must_use]
    pub fn to_string(&self) -> (r: String)
        ensures
            r@ == self.message(),
    {
        let mut s: String = String::new();
        self.push_message(&mut s);
        assert(s@ =~= self.message());
        s
    }
}

} // verus!
