//! Error values for address parsing, with their report texts.

use vstd::prelude::*;

verus! {

/// Why a number inside an address failed to parse.
#[derive(Debug, PartialEq, Eq, Structural, Clone, Copy)]
pub enum NumErrorKind {
    /// The text was empty.
    Empty,
    /// A character was not a decimal digit.
    InvalidDigit,
    /// The value does not fit in a byte.
    PosOverflow,
}

/// Why an address or subnet text was rejected.
#[derive(Debug)]
pub enum ParseError {
    /// More than one `/` in the text.
    TooManySlashes,
    /// The part after the `/` is not a byte-sized number.
    BadMask { src: String },
    /// An octet failed to parse; `addr` is the address part examined.
    BadOctet { addr: String, kind: NumErrorKind },
    /// The address part does not have exactly four octets.
    WrongOctetCount { addr: String },
    /// The mask length exceeds 32.
    MaskTooLong,
}

/// The mathematical shape of a `ParseError`, over character sequences.
pub enum ParseIssue {
    TooManySlashes,
    BadMask(Seq<char>),
    BadOctet(Seq<char>, NumErrorKind),
    WrongOctetCount(Seq<char>),
    MaskTooLong,
}

impl View for ParseError {
    type V = ParseIssue;

    open spec fn view(&self) -> ParseIssue {
        match self {
            ParseError::TooManySlashes => ParseIssue::TooManySlashes,
            ParseError::BadMask { src } => ParseIssue::BadMask(src@),
            ParseError::BadOctet { addr, kind } => ParseIssue::BadOctet(addr@, *kind),
            ParseError::WrongOctetCount { addr } => ParseIssue::WrongOctetCount(addr@),
            ParseError::MaskTooLong => ParseIssue::MaskTooLong,
        }
    }
}

/// The text std uses for each numeric error kind.
pub open spec fn kind_text(kind: NumErrorKind) -> Seq<char> {
    match kind {
        NumErrorKind::Empty => "Empty"@,
        NumErrorKind::InvalidDigit => "InvalidDigit"@,
        NumErrorKind::PosOverflow => "PosOverflow"@,
    }
}

impl ParseError {
    /// The report text of this error.
    pub open spec fn message_spec(self) -> Seq<char> {
        match self {
            ParseError::TooManySlashes => "there are more than 1 / in the address"@,
            ParseError::BadMask { src } => "can't parse netmask from "@ + src@,
            ParseError::BadOctet { addr, kind } => "unable to parse \""@ + addr@
                + "\": ParseIntError { kind: "@ + kind_text(kind) + " }"@,
            ParseError::WrongOctetCount { addr } => "address "@ + addr@
                + " doesn't have 4 dot-separated octets"@,
            ParseError::MaskTooLong => "mask len is > 32"@,
        }
    }

    /// Renders the error as the text a caller reports.
    pub fn message(&self) -> (r: String)
        ensures
            r@ == self.message_spec(),
    {
        match self {
            ParseError::TooManySlashes => "there are more than 1 / in the address".to_owned(),
            ParseError::BadMask { src } => {
                let mut out = "can't parse netmask from ".to_owned();
                out.append(src.as_str());
                out
            },
            ParseError::BadOctet { addr, kind } => {
                let mut out = "unable to parse \"".to_owned();
                out.append(addr.as_str());
                out.append("\": ParseIntError { kind: ");
                match kind {
                    NumErrorKind::Empty => out.append("Empty"),
                    NumErrorKind::InvalidDigit => out.append("InvalidDigit"),
                    NumErrorKind::PosOverflow => out.append("PosOverflow"),
                }
                out.append(" }");
                out
            },
            ParseError::WrongOctetCount { addr } => {
                let mut out = "address ".to_owned();
                out.append(addr.as_str());
                out.append(" doesn't have 4 dot-separated octets");
                out
            },
            ParseError::MaskTooLong => "mask len is > 32".to_owned(),
        }
    }
}

} // verus!
