use vstd::prelude::*;
use vstd::string::StringExecFns;

verus! {

/// Errors reported by a single controller while connecting or reconnecting.
#[derive(Debug, PartialEq, Eq, Structural)]
pub enum WiimoteDeviceError {
    InvalidVendorID(u16),
    InvalidProductID(u16),
    MissingData,
    InvalidChecksum,
    InvalidData,
}

/// Errors of the manager level.
#[derive(Debug, PartialEq, Eq, Structural)]
pub enum WiimoteError {
    WiimoteDeviceError(WiimoteDeviceError),
    Disconnected,
}

pub type WiimoteResult<T> = Result<T, WiimoteError>;

/// The character that writes the decimal digit `d`.
pub open spec fn digit_char(d: nat) -> char {
    if d == 0 { '0' } else if d == 1 { '1' } else if d == 2 { '2' } else if d == 3 { '3' }
    else if d == 4 { '4' } else if d == 5 { '5' } else if d == 6 { '6' } else if d == 7 { '7' }
    else if d == 8 { '8' } else { '9' }
}

/// `n` written in decimal, without leading zeros.
pub open spec fn decimal(n: nat) -> Seq<char>
    decreases n,
{
    if n < 10 {
        seq![digit_char(n)]
    } else {
        decimal(n / 10).push(digit_char(n % 10))
    }
}

pub open spec fn device_message(e: WiimoteDeviceError) -> Seq<char> {
    match e {
        WiimoteDeviceError::InvalidVendorID(id) => "Invalid vendor ID "@ + decimal(id as nat),
        WiimoteDeviceError::InvalidProductID(id) => "Invalid product ID "@ + decimal(id as nat),
        WiimoteDeviceError::MissingData => "Missing data"@,
        WiimoteDeviceError::InvalidChecksum => "Invalid checksum"@,
        WiimoteDeviceError::InvalidData => "Invalid data"@,
    }
}

pub open spec fn error_message(e: WiimoteError) -> Seq<char> {
    match e {
        WiimoteError::WiimoteDeviceError(d) => device_message(d),
        WiimoteError::Disconnected => "Disconnected"@,
    }
}

fn digit_str(d: u16) -> (r: &'static str)
    requires
        d < 10,
    ensures
        r@ == seq![digit_char(d as nat)],
{
    proof {
        reveal_strlit("0");
        reveal_strlit("1");
        reveal_strlit("2");
        reveal_strlit("3");
        reveal_strlit("4");
        reveal_strlit("5");
        reveal_strlit("6");
        reveal_strlit("7");
        reveal_strlit("8");
        reveal_strlit("9");
    }
    if d == 0 { "0" } else if d == 1 { "1" } else if d == 2 { "2" } else if d == 3 { "3" }
    else if d == 4 { "4" } else if d == 5 { "5" } else if d == 6 { "6" } else if d == 7 { "7" }
    else if d == 8 { "8" } else {
        assert(d == 9);
        "9"
    }
}

/// Appends `n` in decimal to `s`.
fn append_decimal(s: &mut String, n: u16)
    ensures
        final(s)@ == old(s)@ + decimal(n as nat),
    decreases n,
{
    if n >= 10 {
        append_decimal(s, n / 10);
    }
    s.append(digit_str(n % 10));
    proof {
        if n >= 10 {
            assert(decimal(n as nat) == decimal((n / 10) as nat).push(digit_char((n % 10) as nat)));
        }
        assert(final(s)@ =~= old(s)@ + decimal(n as nat));
    }
}

fn labelled_number(label: &str, n: u16) -> (r: String)
    ensures
        r@ == label@ + decimal(n as nat),
{
    let mut s = String::from_str(label);
    append_decimal(&mut s, n);
    s
}

impl WiimoteDeviceError {
    /// The human-readable description of this error.
    pub fn message(&self) -> (r: String)
        ensures
            r@ == device_message(*self),
    {
        match self {
            WiimoteDeviceError::InvalidVendorID(id) => labelled_number("Invalid vendor ID ", *id),
            WiimoteDeviceError::InvalidProductID(id) => labelled_number("Invalid product ID ", *id),
            WiimoteDeviceError::MissingData => String::from_str("Missing data"),
            WiimoteDeviceError::InvalidChecksum => String::from_str("Invalid checksum"),
            WiimoteDeviceError::InvalidData => String::from_str("Invalid data"),
        }
    }
}

impl WiimoteError {
    /// The human-readable description of this error; a device error reads as
    /// its own message.
    pub fn message(&self) -> (r: String)
        ensures
            r@ == error_message(*self),
    {
        match self {
            WiimoteError::WiimoteDeviceError(e) => e.message(),
            WiimoteError::Disconnected => String::from_str("Disconnected"),
        }
    }
}

impl From<WiimoteDeviceError> for WiimoteError {
    fn from(e: WiimoteDeviceError) -> (r: WiimoteError)
        ensures
            r == WiimoteError::WiimoteDeviceError(e),
    {
        WiimoteError::WiimoteDeviceError(e)
    }
}

impl vstd::std_specs::convert::FromSpecImpl<WiimoteDeviceError> for WiimoteError {
    open spec fn obeys_from_spec() -> bool {
        true
    }

    open spec fn from_spec(e: WiimoteDeviceError) -> WiimoteError {
        WiimoteError::WiimoteDeviceError(e)
    }
}

} // verus!
