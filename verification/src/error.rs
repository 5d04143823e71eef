//! The errors the codec reports.
use vstd::prelude::*;
use crate::data::DataError;

verus! {

/// The integer type a JSON number was being converted to.
#[derive(Debug, Clone, Copy, PartialEq, Eq)]
pub enum IntKind {
    Int8,
    Int16,
    Int32,
    Int64,
    UInt8,
    UInt16,
    UInt32,
    UInt64,
    /// A byte of a `Data` value written as an array of numbers.
    DataByte,
}

/// An error of the codec, with its text payloads of type `S`: `String` in
/// executable code (see [`Error`]) and `Seq<char>` in specifications.
#[derive(Debug, Clone, PartialEq, Eq)]
pub enum ErrorOf<S> {
    // --- JSON syntax -------------------------------------------------------
    /// The input ended inside a value.
    UnexpectedEndOfInput,
    /// A character that cannot start or continue the value being read.
    InvalidToken(char),
    /// Number text that is not a decimal number.
    InvalidNumber(S),
    /// An object names the same key twice.
    DuplicateKey(S),
    /// A backslash followed by a character that is not an escape.
    InvalidEscape(char),
    /// The four characters after `\u` are not a hexadecimal number.
    InvalidUnicodeEscape(S),
    /// A `\u` escape holding a trailing surrogate with no leading one before it.
    UnpairedTrailingSurrogate(u16),
    /// A leading surrogate not followed by another `\u` escape.
    UnpairedLeadingSurrogate(u16),
    /// A leading surrogate followed by an escape that is not a trailing one.
    InvalidSurrogatePair(u16, u16),
    /// Arrays and objects nest deeper than the recursion limit.
    RecursionLimitParsing,
    /// Something other than whitespace follows the top-level value.
    TrailingCharacters,
    // --- Data codecs -------------------------------------------------------
    /// A Base64 or hex string that does not decode.
    Data(DataError),
    // --- Annotations -------------------------------------------------------
    /// A field carries both `$Json.base64` and `$Json.hex`.
    ConflictingDataEncodings,
    /// `$Json.base64` or `$Json.hex` on a field that does not hold `Data`.
    DataEncodingOnNonData,
    /// A cycle of flattened fields, named by the display name of a struct on it.
    CyclicFlattening(S),
    // --- Encoding ----------------------------------------------------------
    /// A flattened field (named) whose value is not an object.
    FlattenNotObject(S),
    /// A non-null `AnyPointer` with no codec for it.
    AnyPointerNotRepresentable,
    /// A capability with no codec for it.
    CapabilityNotRepresentable,
    /// A message whose top-level value is not a struct.
    TopLevelNotStruct,
    // --- Decoding ----------------------------------------------------------
    /// Structs nest deeper than the recursion limit while decoding.
    RecursionLimitDecoding,
    /// A struct was to be decoded from something other than an object.
    ExpectedObject,
    /// A `Void` field (named) holding something other than `null`.
    ExpectedNull(S),
    /// A `Bool` field (named) holding something other than a boolean.
    ExpectedBoolean(S),
    /// A number field (named) holding something other than a number.
    ExpectedNumber(S),
    /// An `Int64` field (named) holding neither a number nor a string.
    ExpectedNumberOrString(S),
    /// A `UInt64` field (named) holding neither a number nor a string.
    ExpectedStringNumber(S),
    /// A `Text` field (named) holding something other than a string.
    ExpectedString(S),
    /// An integral number too large or too small for the field's type:
    /// kind, field name, number text.
    OutOfRange(IntKind, S, S),
    /// A number with a fractional part where an integer is needed:
    /// kind, field name, number text.
    NotAnInteger(IntKind, S, S),
    /// A string that does not hold a decimal integer: text, field name.
    InvalidNumericString(S, S),
    /// A string naming no enumerant: text, field name.
    InvalidEnumValue(S, S),
    /// An enum field (named) holding neither a string nor a number.
    ExpectedEnumStringOrNumber(S),
    /// A `Data` field (named) holding something other than an array.
    ExpectedArrayForData(S),
    /// A `Data` byte in the named field that is not a number.
    ExpectedNumberForDataByte(S),
    /// A Base64 `Data` field (named) holding something other than a string.
    ExpectedStringForBase64(S),
    /// A hex `Data` field (named) holding something other than a string.
    ExpectedStringForHex(S),
    /// A field (named) of a type that has no JSON form.
    UnsupportedPrimitive(S),
    /// A list element (of the named field) that is not an array.
    ExpectedArrayForList(S),
    /// A list field (named) holding something other than an array.
    ExpectedArray(S),
}

/// The error type of the library's executable functions.
pub type Error = ErrorOf<String>;

/// The error type of the library's specifications.
pub type ErrorModel = ErrorOf<Seq<char>>;

impl View for ErrorOf<String> {
    type V = ErrorOf<Seq<char>>;

    open spec fn view(&self) -> ErrorOf<Seq<char>> {
        match self {
            ErrorOf::UnexpectedEndOfInput => ErrorOf::UnexpectedEndOfInput,
            ErrorOf::InvalidToken(c) => ErrorOf::InvalidToken(*c),
            ErrorOf::InvalidNumber(s) => ErrorOf::InvalidNumber(s@),
            ErrorOf::DuplicateKey(s) => ErrorOf::DuplicateKey(s@),
            ErrorOf::InvalidEscape(c) => ErrorOf::InvalidEscape(*c),
            ErrorOf::InvalidUnicodeEscape(s) => ErrorOf::InvalidUnicodeEscape(s@),
            ErrorOf::UnpairedTrailingSurrogate(u) => ErrorOf::UnpairedTrailingSurrogate(*u),
            ErrorOf::UnpairedLeadingSurrogate(u) => ErrorOf::UnpairedLeadingSurrogate(*u),
            ErrorOf::InvalidSurrogatePair(u, v) => ErrorOf::InvalidSurrogatePair(*u, *v),
            ErrorOf::RecursionLimitParsing => ErrorOf::RecursionLimitParsing,
            ErrorOf::TrailingCharacters => ErrorOf::TrailingCharacters,
            ErrorOf::Data(d) => ErrorOf::Data(*d),
            ErrorOf::ConflictingDataEncodings => ErrorOf::ConflictingDataEncodings,
            ErrorOf::DataEncodingOnNonData => ErrorOf::DataEncodingOnNonData,
            ErrorOf::CyclicFlattening(s) => ErrorOf::CyclicFlattening(s@),
            ErrorOf::FlattenNotObject(s) => ErrorOf::FlattenNotObject(s@),
            ErrorOf::AnyPointerNotRepresentable => ErrorOf::AnyPointerNotRepresentable,
            ErrorOf::CapabilityNotRepresentable => ErrorOf::CapabilityNotRepresentable,
            ErrorOf::TopLevelNotStruct => ErrorOf::TopLevelNotStruct,
            ErrorOf::RecursionLimitDecoding => ErrorOf::RecursionLimitDecoding,
            ErrorOf::ExpectedObject => ErrorOf::ExpectedObject,
            ErrorOf::ExpectedNull(s) => ErrorOf::ExpectedNull(s@),
            ErrorOf::ExpectedBoolean(s) => ErrorOf::ExpectedBoolean(s@),
            ErrorOf::ExpectedNumber(s) => ErrorOf::ExpectedNumber(s@),
            ErrorOf::ExpectedNumberOrString(s) => ErrorOf::ExpectedNumberOrString(s@),
            ErrorOf::ExpectedStringNumber(s) => ErrorOf::ExpectedStringNumber(s@),
            ErrorOf::ExpectedString(s) => ErrorOf::ExpectedString(s@),
            ErrorOf::OutOfRange(k, f, v) => ErrorOf::OutOfRange(*k, f@, v@),
            ErrorOf::NotAnInteger(k, f, v) => ErrorOf::NotAnInteger(*k, f@, v@),
            ErrorOf::InvalidNumericString(v, f) => ErrorOf::InvalidNumericString(v@, f@),
            ErrorOf::InvalidEnumValue(v, f) => ErrorOf::InvalidEnumValue(v@, f@),
            ErrorOf::ExpectedEnumStringOrNumber(s) => ErrorOf::ExpectedEnumStringOrNumber(s@),
            ErrorOf::ExpectedArrayForData(s) => ErrorOf::ExpectedArrayForData(s@),
            ErrorOf::ExpectedNumberForDataByte(s) => ErrorOf::ExpectedNumberForDataByte(s@),
            ErrorOf::ExpectedStringForBase64(s) => ErrorOf::ExpectedStringForBase64(s@),
            ErrorOf::ExpectedStringForHex(s) => ErrorOf::ExpectedStringForHex(s@),
            ErrorOf::UnsupportedPrimitive(s) => ErrorOf::UnsupportedPrimitive(s@),
            ErrorOf::ExpectedArrayForList(s) => ErrorOf::ExpectedArrayForList(s@),
            ErrorOf::ExpectedArray(s) => ErrorOf::ExpectedArray(s@),
        }
    }
}

} // verus!
