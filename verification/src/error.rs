//! Errors of the library and their numeric codes.
use vstd::prelude::*;
use vstd::string::*;
use crate::text;

verus! {

#[derive(Debug, Clone, PartialEq, Eq)]
pub enum TelemetryError {
    GenericError(Option<String>),
    InvalidType,
    SizeMismatch { expected: usize, got: usize },
    SizeMismatchError,
    EmptyEndpoints,
    TimestampInvalid,
    MissingPayload,
    HandlerError(&'static str),
    BadArg,
    PermissionDenied,
    Pack(&'static str),
    Unpack(&'static str),
    Io(&'static str),
    InvalidUtf8,
    TypeMismatch { expected: usize, got: usize },
    InvalidLinkId(&'static str),
    PacketTooLarge(&'static str),
}

pub type TelemetryResult<T> = Result<T, TelemetryError>;

/// The kind of an error, without what it carries.
#[derive(Debug, Clone, Copy, PartialEq, Eq, Structural)]
pub enum TelemetryErrorCode {
    GenericError,
    InvalidType,
    SizeMismatch,
    SizeMismatchError,
    EmptyEndpoints,
    TimestampInvalid,
    MissingPayload,
    HandlerError,
    BadArg,
    PermissionDenied,
    Pack,
    Unpack,
    Io,
    InvalidUtf8,
    TypeMismatch,
    InvalidLinkId,
    PacketTooLarge,
}

impl TelemetryErrorCode {
    /// The number of a code. The numbers are consecutive, from `MAX_CODE` down to `MIN_CODE`.
    pub open spec fn number(self) -> int {
        match self {
            TelemetryErrorCode::GenericError => -1,
            TelemetryErrorCode::InvalidType => -2,
            TelemetryErrorCode::SizeMismatch => -3,
            TelemetryErrorCode::SizeMismatchError => -4,
            TelemetryErrorCode::EmptyEndpoints => -5,
            TelemetryErrorCode::TimestampInvalid => -6,
            TelemetryErrorCode::MissingPayload => -7,
            TelemetryErrorCode::HandlerError => -8,
            TelemetryErrorCode::BadArg => -9,
            TelemetryErrorCode::PermissionDenied => -10,
            TelemetryErrorCode::Pack => -11,
            TelemetryErrorCode::Unpack => -12,
            TelemetryErrorCode::Io => -13,
            TelemetryErrorCode::InvalidUtf8 => -14,
            TelemetryErrorCode::TypeMismatch => -15,
            TelemetryErrorCode::InvalidLinkId => -16,
            TelemetryErrorCode::PacketTooLarge => -17,
        }
    }

    /// The code's name.
    pub open spec fn name(self) -> Seq<char> {
        match self {
            TelemetryErrorCode::GenericError => "GenericError"@,
            TelemetryErrorCode::InvalidType => "InvalidType"@,
            TelemetryErrorCode::SizeMismatch => "SizeMismatch"@,
            TelemetryErrorCode::SizeMismatchError => "SizeMismatchError"@,
            TelemetryErrorCode::EmptyEndpoints => "EmptyEndpoints"@,
            TelemetryErrorCode::TimestampInvalid => "TimestampInvalid"@,
            TelemetryErrorCode::MissingPayload => "MissingPayload"@,
            TelemetryErrorCode::HandlerError => "HandlerError"@,
            TelemetryErrorCode::BadArg => "BadArg"@,
            TelemetryErrorCode::PermissionDenied => "PermissionDenied"@,
            TelemetryErrorCode::Pack => "Pack"@,
            TelemetryErrorCode::Unpack => "Unpack"@,
            TelemetryErrorCode::Io => "Io"@,
            TelemetryErrorCode::InvalidUtf8 => "InvalidUtf8"@,
            TelemetryErrorCode::TypeMismatch => "TypeMismatch"@,
            TelemetryErrorCode::InvalidLinkId => "InvalidLinkId"@,
            TelemetryErrorCode::PacketTooLarge => "PacketTooLarge"@,
        }
    }

    fn name_str(self) -> (r: &'static str)
        ensures
            r@ == self.name(),
    {
        match self {
            TelemetryErrorCode::GenericError => "GenericError",
            TelemetryErrorCode::InvalidType => "InvalidType",
            TelemetryErrorCode::SizeMismatch => "SizeMismatch",
            TelemetryErrorCode::SizeMismatchError => "SizeMismatchError",
            TelemetryErrorCode::EmptyEndpoints => "EmptyEndpoints",
            TelemetryErrorCode::TimestampInvalid => "TimestampInvalid",
            TelemetryErrorCode::MissingPayload => "MissingPayload",
            TelemetryErrorCode::HandlerError => "HandlerError",
            TelemetryErrorCode::BadArg => "BadArg",
            TelemetryErrorCode::PermissionDenied => "PermissionDenied",
            TelemetryErrorCode::Pack => "Pack",
            TelemetryErrorCode::Unpack => "Unpack",
            TelemetryErrorCode::Io => "Io",
            TelemetryErrorCode::InvalidUtf8 => "InvalidUtf8",
            TelemetryErrorCode::TypeMismatch => "TypeMismatch",
            TelemetryErrorCode::InvalidLinkId => "InvalidLinkId",
            TelemetryErrorCode::PacketTooLarge => "PacketTooLarge",
        }
    }

    /// The code's name in braces.
    pub fn as_str(self) -> (r: String)
        ensures
            r@ == "{"@ + self.name() + "}"@,
    {
        let mut out: String = "{".to_owned();
        out.append(self.name_str());
        out.append("}");
        out
    }

    /// The number of a code.
    pub fn as_i32(self) -> (n: i32)
        ensures
            n == self.number(),
            MIN_CODE <= n <= MAX_CODE,
    {
        match self {
            TelemetryErrorCode::GenericError => -1,
            TelemetryErrorCode::InvalidType => -2,
            TelemetryErrorCode::SizeMismatch => -3,
            TelemetryErrorCode::SizeMismatchError => -4,
            TelemetryErrorCode::EmptyEndpoints => -5,
            TelemetryErrorCode::TimestampInvalid => -6,
            TelemetryErrorCode::MissingPayload => -7,
            TelemetryErrorCode::HandlerError => -8,
            TelemetryErrorCode::BadArg => -9,
            TelemetryErrorCode::PermissionDenied => -10,
            TelemetryErrorCode::Pack => -11,
            TelemetryErrorCode::Unpack => -12,
            TelemetryErrorCode::Io => -13,
            TelemetryErrorCode::InvalidUtf8 => -14,
            TelemetryErrorCode::TypeMismatch => -15,
            TelemetryErrorCode::InvalidLinkId => -16,
            TelemetryErrorCode::PacketTooLarge => -17,
        }
    }

    /// The code of a number; `None` exactly for numbers outside `MIN_CODE..=MAX_CODE`.
    pub fn try_from_i32(n: i32) -> (r: Option<TelemetryErrorCode>)
        ensures
            r is Some <==> MIN_CODE <= n <= MAX_CODE,
            r matches Some(c) ==> c.number() == n,
    {
        match n {
            -1 => Some(TelemetryErrorCode::GenericError),
            -2 => Some(TelemetryErrorCode::InvalidType),
            -3 => Some(TelemetryErrorCode::SizeMismatch),
            -4 => Some(TelemetryErrorCode::SizeMismatchError),
            -5 => Some(TelemetryErrorCode::EmptyEndpoints),
            -6 => Some(TelemetryErrorCode::TimestampInvalid),
            -7 => Some(TelemetryErrorCode::MissingPayload),
            -8 => Some(TelemetryErrorCode::HandlerError),
            -9 => Some(TelemetryErrorCode::BadArg),
            -10 => Some(TelemetryErrorCode::PermissionDenied),
            -11 => Some(TelemetryErrorCode::Pack),
            -12 => Some(TelemetryErrorCode::Unpack),
            -13 => Some(TelemetryErrorCode::Io),
            -14 => Some(TelemetryErrorCode::InvalidUtf8),
            -15 => Some(TelemetryErrorCode::TypeMismatch),
            -16 => Some(TelemetryErrorCode::InvalidLinkId),
            -17 => Some(TelemetryErrorCode::PacketTooLarge),
            _ => None,
        }
    }
}

/// Smallest number of a code.
pub const MIN_CODE: i32 = -17;

/// Largest number of a code.
pub const MAX_CODE: i32 = -1;

/// A code is known by its number.
pub proof fn lemma_code_number_injective(a: TelemetryErrorCode, b: TelemetryErrorCode)
    requires
        a.number() == b.number(),
    ensures
        a == b,
{
}

impl TelemetryError {
    pub open spec fn code(self) -> TelemetryErrorCode {
        match self {
            TelemetryError::GenericError(_) => TelemetryErrorCode::GenericError,
            TelemetryError::InvalidType => TelemetryErrorCode::InvalidType,
            TelemetryError::SizeMismatch { .. } => TelemetryErrorCode::SizeMismatch,
            TelemetryError::SizeMismatchError => TelemetryErrorCode::SizeMismatchError,
            TelemetryError::EmptyEndpoints => TelemetryErrorCode::EmptyEndpoints,
            TelemetryError::TimestampInvalid => TelemetryErrorCode::TimestampInvalid,
            TelemetryError::MissingPayload => TelemetryErrorCode::MissingPayload,
            TelemetryError::HandlerError(_) => TelemetryErrorCode::HandlerError,
            TelemetryError::BadArg => TelemetryErrorCode::BadArg,
            TelemetryError::PermissionDenied => TelemetryErrorCode::PermissionDenied,
            TelemetryError::Pack(_) => TelemetryErrorCode::Pack,
            TelemetryError::Unpack(_) => TelemetryErrorCode::Unpack,
            TelemetryError::Io(_) => TelemetryErrorCode::Io,
            TelemetryError::InvalidUtf8 => TelemetryErrorCode::InvalidUtf8,
            TelemetryError::TypeMismatch { .. } => TelemetryErrorCode::TypeMismatch,
            TelemetryError::InvalidLinkId(_) => TelemetryErrorCode::InvalidLinkId,
            TelemetryError::PacketTooLarge(_) => TelemetryErrorCode::PacketTooLarge,
        }
    }

    /// The error's kind.
    pub fn to_error_code(&self) -> (c: TelemetryErrorCode)
        ensures
            c == self.code(),
    {
        match self {
            TelemetryError::GenericError(_) => TelemetryErrorCode::GenericError,
            TelemetryError::InvalidType => TelemetryErrorCode::InvalidType,
            TelemetryError::SizeMismatch { .. } => TelemetryErrorCode::SizeMismatch,
            TelemetryError::SizeMismatchError => TelemetryErrorCode::SizeMismatchError,
            TelemetryError::EmptyEndpoints => TelemetryErrorCode::EmptyEndpoints,
            TelemetryError::TimestampInvalid => TelemetryErrorCode::TimestampInvalid,
            TelemetryError::MissingPayload => TelemetryErrorCode::MissingPayload,
            TelemetryError::HandlerError(_) => TelemetryErrorCode::HandlerError,
            TelemetryError::BadArg => TelemetryErrorCode::BadArg,
            TelemetryError::PermissionDenied => TelemetryErrorCode::PermissionDenied,
            TelemetryError::Pack(_) => TelemetryErrorCode::Pack,
            TelemetryError::Unpack(_) => TelemetryErrorCode::Unpack,
            TelemetryError::Io(_) => TelemetryErrorCode::Io,
            TelemetryError::InvalidUtf8 => TelemetryErrorCode::InvalidUtf8,
            TelemetryError::TypeMismatch { .. } => TelemetryErrorCode::TypeMismatch,
            TelemetryError::InvalidLinkId(_) => TelemetryErrorCode::InvalidLinkId,
            TelemetryError::PacketTooLarge(_) => TelemetryErrorCode::PacketTooLarge,
        }
    }

    /// What the error carries, as it is written behind its name.
    pub open spec fn detail(self) -> Seq<char> {
        match self {
            TelemetryError::GenericError(None) => "(None)"@,
            TelemetryError::GenericError(Some(m)) => "(Some(\""@ + m@ + "\"))"@,
            TelemetryError::SizeMismatch { expected, got } => sizes_text(expected, got),
            TelemetryError::TypeMismatch { expected, got } => sizes_text(expected, got),
            TelemetryError::HandlerError(m) => quoted(m@),
            TelemetryError::Pack(m) => quoted(m@),
            TelemetryError::Unpack(m) => quoted(m@),
            TelemetryError::Io(m) => quoted(m@),
            TelemetryError::InvalidLinkId(m) => quoted(m@),
            TelemetryError::PacketTooLarge(m) => quoted(m@),
            _ => ""@,
        }
    }

    /// The error as text: its name, and what it carries behind it. Messages stand as they are,
    /// between quotation marks.
    pub fn to_text(&self) -> (r: String)
        ensures
            r@ == self.code().name() + self.detail(),
    {
        let mut out: String = self.to_error_code().name_str().to_owned();
        match self {
            TelemetryError::GenericError(None) => {
                out.append("(None)");
            },
            TelemetryError::GenericError(Some(m)) => {
                out.append("(Some(\"");
                out.append(m.as_str());
                out.append("\"))");
            },
            TelemetryError::SizeMismatch { expected, got } => {
                push_sizes(&mut out, *expected, *got);
            },
            TelemetryError::TypeMismatch { expected, got } => {
                push_sizes(&mut out, *expected, *got);
            },
            TelemetryError::HandlerError(m) => push_quoted(&mut out, m),
            TelemetryError::Pack(m) => push_quoted(&mut out, m),
            TelemetryError::Unpack(m) => push_quoted(&mut out, m),
            TelemetryError::Io(m) => push_quoted(&mut out, m),
            TelemetryError::InvalidLinkId(m) => push_quoted(&mut out, m),
            TelemetryError::PacketTooLarge(m) => push_quoted(&mut out, m),
            _ => {
                out.append("");
            },
        }
        out
    }
}

/// A message in parentheses and quotation marks.
pub open spec fn quoted(m: Seq<char>) -> Seq<char> {
    "(\""@ + m + "\")"@
}

/// The two numbers of a mismatch.
pub open spec fn sizes_text(expected: usize, got: usize) -> Seq<char> {
    " { expected: "@ + text::decimal(expected as nat) + ", got: "@ + text::decimal(got as nat) + " }"@
}

fn push_quoted(out: &mut String, m: &str)
    ensures
        final(out)@ == old(out)@ + quoted(m@),
{
    out.append("(\"");
    out.append(m);
    out.append("\")");
}

fn push_sizes(out: &mut String, expected: usize, got: usize)
    ensures
        final(out)@ == old(out)@ + sizes_text(expected, got),
{
    out.append(" { expected: ");
    text::push_decimal(out, expected as u64);
    out.append(", got: ");
    text::push_decimal(out, got as u64);
    out.append(" }");
}

/// The text of a mismatch tells the number that was expected first, and then the one that came.
pub proof fn lemma_both_sizes_are_told(expected: usize, got: usize)
    ensures
        ({
            let t = TelemetryError::SizeMismatch { expected, got }.detail();
            let a = text::decimal(expected as nat);
            let b = text::decimal(got as nat);
            &&& t == TelemetryError::TypeMismatch { expected, got }.detail()
            &&& t.len() == 22 + a.len() + b.len()
            &&& text::number_in(t.subrange(13, 13 + a.len() as int), 10) == Some(expected as nat)
            &&& text::number_in(t.subrange(t.len() - 2 - b.len(), t.len() - 2), 10) == Some(
                got as nat,
            )
        }),
{
    reveal_strlit(" { expected: ");
    reveal_strlit(", got: ");
    reveal_strlit(" }");
    let t = sizes_text(expected, got);
    let a = text::decimal(expected as nat);
    let b = text::decimal(got as nat);
    text::lemma_decimal_reads_back(expected as nat);
    text::lemma_decimal_reads_back(got as nat);
    assert(" { expected: "@.len() == 13);
    assert(", got: "@.len() == 7);
    assert(" }"@.len() == 2);
    assert(t.len() == 22 + a.len() + b.len());
    assert(t.subrange(13, 13 + a.len() as int) =~= a);
    assert(t.subrange(t.len() - 2 - b.len(), t.len() - 2) =~= b);
}

} // verus!
