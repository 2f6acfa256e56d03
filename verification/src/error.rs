use vstd::prelude::*;
use vstd::string::StringExecFns;

verus! {

/// The failure taxonomy of the codec.
///
/// The structural kinds (`Eof` through `ExpectedSimpleString`) are produced by
/// the decoder and pinpoint which grammar expectation failed; the open
/// `Message` kind carries free text and is produced by the encoder when a
/// value's shape has no RESP representation.
#[derive(Debug, Clone, PartialEq, Eq)]
pub enum Error {
    Message(String),
    Eof,
    Syntax,
    ExpectedCRLF,
    ExpectedArray,
    ExpectedInteger,
    ExpectedSimpleString,
}

impl Error {
    /// A human-readable description of the error.
    pub fn message_text(&self) -> (r: String)
        ensures
            self matches Error::Message(m) ==> r@ == m@,
            self is Eof ==> r@ == "unexpected end of input"@,
            self is Syntax ==> r@ == "syntax does not follow RESP"@,
            self is ExpectedCRLF ==> r@ == "expected CRLF terminator"@,
            self is ExpectedArray ==> r@ == "invalid content expected an array"@,
            self is ExpectedInteger ==> r@ == "invalid content expected an integer"@,
            self is ExpectedSimpleString ==> r@ == "invalid content expected simple strings"@,
    {
        match self {
            Error::Message(m) => m.clone(),
            Error::Eof => String::from_str("unexpected end of input"),
            Error::Syntax => String::from_str("syntax does not follow RESP"),
            Error::ExpectedCRLF => String::from_str("expected CRLF terminator"),
            Error::ExpectedArray => String::from_str("invalid content expected an array"),
            Error::ExpectedInteger => String::from_str("invalid content expected an integer"),
            Error::ExpectedSimpleString => String::from_str("invalid content expected simple strings"),
        }
    }
}

} // verus!
