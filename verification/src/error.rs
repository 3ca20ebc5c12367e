use vstd::prelude::*;
use vstd::string::StringExecFns;

verus! {

/// Everything that can go wrong in this library.
#[derive(Debug, PartialEq)]
pub enum N3gbError {
    /// A decoded identifier is not 19 bytes long.
    InvalidIdentifierLength,
    /// The checksum byte of an identifier does not match its payload.
    InvalidChecksum,
    /// The identifier carries a version this library does not read.
    UnsupportedVersion(u8),
    /// The zoom level is above 15.
    InvalidZoomLevel(u8),
    /// A hexagon dimension is not positive.
    InvalidDimension(String),
    /// The identifier text is not unpadded URL-safe Base64.
    Base64DecodeError,
    /// A coordinate could not be projected onto the national grid.
    ProjectionError(String),
    /// Reading or writing a file failed.
    IoError(String),
    /// A table could not be read, or lacks a column that was asked for.
    CsvError(String),
    /// A geometry is malformed or of a kind that cannot be indexed.
    GeometryParseError(String),
}

/// The mathematical value of an [`N3gbError`]: the same variants, with each
/// message as a sequence of characters.
pub ghost enum ErrorView {
    InvalidIdentifierLength,
    InvalidChecksum,
    UnsupportedVersion(u8),
    InvalidZoomLevel(u8),
    InvalidDimension(Seq<char>),
    Base64DecodeError,
    ProjectionError(Seq<char>),
    IoError(Seq<char>),
    CsvError(Seq<char>),
    GeometryParseError(Seq<char>),
}

impl View for N3gbError {
    type V = ErrorView;

    open spec fn view(&self) -> ErrorView {
        match self {
            N3gbError::InvalidIdentifierLength => ErrorView::InvalidIdentifierLength,
            N3gbError::InvalidChecksum => ErrorView::InvalidChecksum,
            N3gbError::UnsupportedVersion(v) => ErrorView::UnsupportedVersion(*v),
            N3gbError::InvalidZoomLevel(z) => ErrorView::InvalidZoomLevel(*z),
            N3gbError::InvalidDimension(m) => ErrorView::InvalidDimension(m@),
            N3gbError::Base64DecodeError => ErrorView::Base64DecodeError,
            N3gbError::ProjectionError(m) => ErrorView::ProjectionError(m@),
            N3gbError::IoError(m) => ErrorView::IoError(m@),
            N3gbError::CsvError(m) => ErrorView::CsvError(m@),
            N3gbError::GeometryParseError(m) => ErrorView::GeometryParseError(m@),
        }
    }
}

/// The character of a decimal digit.
pub open spec fn digit_char(d: int) -> char
    recommends
        0 <= d < 10,
{
    if d == 0 {
        '0'
    } else if d == 1 {
        '1'
    } else if d == 2 {
        '2'
    } else if d == 3 {
        '3'
    } else if d == 4 {
        '4'
    } else if d == 5 {
        '5'
    } else if d == 6 {
        '6'
    } else if d == 7 {
        '7'
    } else if d == 8 {
        '8'
    } else {
        '9'
    }
}

/// A number written in decimal, without leading zeros.
pub open spec fn decimal_text(n: nat) -> Seq<char>
    decreases n,
{
    if n < 10 {
        seq![digit_char(n as int)]
    } else {
        decimal_text(n / 10).push(digit_char((n % 10) as int))
    }
}

impl ErrorView {
    /// The text that describes the error.
    pub open spec fn message(self) -> Seq<char> {
        match self {
            ErrorView::InvalidIdentifierLength => "Invalid identifier length"@,
            ErrorView::InvalidChecksum => "Invalid checksum"@,
            ErrorView::UnsupportedVersion(v) => "Unsupported version: "@ + decimal_text(v as nat),
            ErrorView::InvalidZoomLevel(z) => "Invalid zoom level: "@ + decimal_text(z as nat),
            ErrorView::InvalidDimension(m) => "Invalid dimension: "@ + m,
            ErrorView::Base64DecodeError => "Base64 decode error"@,
            ErrorView::ProjectionError(m) => "Projection error: "@ + m,
            ErrorView::IoError(m) => "IO error: "@ + m,
            ErrorView::CsvError(m) => "CSV error: "@ + m,
            ErrorView::GeometryParseError(m) => "Geometry parse error: "@ + m,
        }
    }
}

/// The text of one decimal digit.
fn digit_text(d: u64) -> (text: &'static str)
    requires
        d < 10,
    ensures
        text@ == seq![digit_char(d as int)],
{
    proof {
        reveal_strlit("0");
        reveal_strlit("1");
        reveal_strlit("2");
        reveal_strlit("3");
        reveal_strlit("4");
        reveal_strlit("5");
        reveal_strlit("6");
        reveal_strlit("7");
        reveal_strlit("8");
        reveal_strlit("9");
    }
    let text = if d == 0 {
        "0"
    } else if d == 1 {
        "1"
    } else if d == 2 {
        "2"
    } else if d == 3 {
        "3"
    } else if d == 4 {
        "4"
    } else if d == 5 {
        "5"
    } else if d == 6 {
        "6"
    } else if d == 7 {
        "7"
    } else if d == 8 {
        "8"
    } else {
        "9"
    };
    assert(text@ =~= seq![digit_char(d as int)]);
    text
}

/// `n` written in decimal.
pub fn decimal_string(n: u64) -> (text: String)
    ensures
        text@ == decimal_text(n as nat),
    decreases n,
{
    if n < 10 {
        String::from_str(digit_text(n))
    } else {
        let front = decimal_string(n / 10);
        let text = front.concat(digit_text(n % 10));
        assert(text@ =~= decimal_text(n as nat));
        text
    }
}

impl N3gbError {
    /// The text that describes the error.
    pub fn message(&self) -> (text: String)
        ensures
            text@ == self@.message(),
    {
        match self {
            N3gbError::InvalidIdentifierLength => String::from_str("Invalid identifier length"),
            N3gbError::InvalidChecksum => String::from_str("Invalid checksum"),
            N3gbError::UnsupportedVersion(v) => String::from_str("Unsupported version: ").concat(
                decimal_string(*v as u64).as_str(),
            ),
            N3gbError::InvalidZoomLevel(z) => String::from_str("Invalid zoom level: ").concat(
                decimal_string(*z as u64).as_str(),
            ),
            N3gbError::InvalidDimension(m) => String::from_str("Invalid dimension: ").concat(
                m.as_str(),
            ),
            N3gbError::Base64DecodeError => String::from_str("Base64 decode error"),
            N3gbError::ProjectionError(m) => String::from_str("Projection error: ").concat(
                m.as_str(),
            ),
            N3gbError::IoError(m) => String::from_str("IO error: ").concat(m.as_str()),
            N3gbError::CsvError(m) => String::from_str("CSV error: ").concat(m.as_str()),
            N3gbError::GeometryParseError(m) => String::from_str("Geometry parse error: ").concat(
                m.as_str(),
            ),
        }
    }
}

} // verus!
