//! Reasons for which a message is rejected.
use vstd::prelude::*;
use vstd::string::StringExecFns;

verus! {

/// Why bytes could not be read as a Router Advertisement, or as a part of one.
#[derive(Debug, Clone, Copy, PartialEq, Eq, Structural)]
pub enum ParseError {
    /// The message is shorter than the fixed header.
    TruncatedHeader,
    /// The ICMPv6 type is not that of a Router Advertisement.
    NotRouterAdvertisement,
    /// A field reaches past the end of the buffer.
    Truncated,
    /// An option at `offset` states a length of zero.
    InvalidLength { offset: usize, opt_type: u8 },
    /// An option at `offset` states `opt_len` bytes, which reach past the
    /// `available` bytes.
    TruncatedOption { offset: usize, opt_len: usize, available: usize },
    /// A Prefix Information Option is shorter than its fixed fields.
    InvalidPrefixLength,
}

/// The character that writes a decimal digit.
pub open spec fn digit_char(d: int) -> char {
    ('0' as int + d) as char
}

/// The decimal notation of a number, without leading zeros.
pub open spec fn decimal(n: nat) -> Seq<char>
    decreases n,
{
    if n < 10 {
        seq![digit_char(n as int)]
    } else {
        decimal(n / 10).push(digit_char((n % 10) as int))
    }
}

/// The text of one decimal digit.
fn digit_text(d: u128) -> (text: &'static str)
    requires
        d < 10,
    ensures
        text@ == seq![digit_char(d as int)],
{
    proof {
        reveal_strlit("0");
        reveal_strlit("1");
        reveal_strlit("2");
        reveal_strlit("3");
        reveal_strlit("4");
        reveal_strlit("5");
        reveal_strlit("6");
        reveal_strlit("7");
        reveal_strlit("8");
        reveal_strlit("9");
    }
    let text = match d {
        0 => "0",
        1 => "1",
        2 => "2",
        3 => "3",
        4 => "4",
        5 => "5",
        6 => "6",
        7 => "7",
        8 => "8",
        _ => "9",
    };
    assert(text@ =~= seq![digit_char(d as int)]);
    text
}

/// Appends the decimal notation of `n`.
fn append_decimal(out: &mut String, n: u128)
    ensures
        final(out)@ == old(out)@ + decimal(n as nat),
    decreases n,
{
    if n >= 10 {
        append_decimal(out, n / 10);
    }
    out.append(digit_text(n % 10));
    assert(out@ =~= old(out)@ + decimal(n as nat));
}

impl ParseError {
    /// The text of the error.
    pub open spec fn text(&self) -> Seq<char> {
        match *self {
            ParseError::TruncatedHeader => "Truncated RA"@,
            ParseError::NotRouterAdvertisement => "Not a Router Advertisement"@,
            ParseError::Truncated => "Truncated"@,
            ParseError::InvalidLength { offset, opt_type } => "InvalidLength on offset "@ + decimal(
                offset as nat,
            ) + " type: "@ + decimal(opt_type as nat),
            ParseError::TruncatedOption { offset, opt_len, available } => "Truncated: "@ + decimal(
                (offset + opt_len) as nat,
            ) + " must be > "@ + decimal(available as nat),
            ParseError::InvalidPrefixLength => "Invalid PIO length"@,
        }
    }

    /// Describes the error to a reader.
    pub fn message(&self) -> (res: String)
        ensures
            res@ == self.text(),
    {
        let mut out = String::new();
        match *self {
            ParseError::TruncatedHeader => {
                out.append("Truncated RA");
            },
            ParseError::NotRouterAdvertisement => {
                out.append("Not a Router Advertisement");
            },
            ParseError::Truncated => {
                out.append("Truncated");
            },
            ParseError::InvalidLength { offset, opt_type } => {
                out.append("InvalidLength on offset ");
                append_decimal(&mut out, offset as u128);
                out.append(" type: ");
                append_decimal(&mut out, opt_type as u128);
            },
            ParseError::TruncatedOption { offset, opt_len, available } => {
                out.append("Truncated: ");
                append_decimal(&mut out, offset as u128 + opt_len as u128);
                out.append(" must be > ");
                append_decimal(&mut out, available as u128);
            },
            ParseError::InvalidPrefixLength => {
                out.append("Invalid PIO length");
            },
        }
        assert(out@ =~= self.text());
        out
    }
}

} // verus!
