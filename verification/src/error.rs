use vstd::prelude::*;

verus! {

/// Errors reported by the library.  Each variant carries a human-readable detail.
#[derive(Debug, Clone, PartialEq, Eq)]
pub enum BoostlssError {
    InvalidConfig(String),
    DataError(String),
    NotConverged(String),
    OutOfRange(String),
    SerializationError(String),
    InvalidStabselConfig(String),
}

impl BoostlssError {
    /// The fixed prefix that the rendered message of each variant starts with.
    pub open spec fn prefix(&self) -> Seq<char> {
        match self {
            BoostlssError::InvalidConfig(_) => "Invalid configuration: "@,
            BoostlssError::DataError(_) => "Data validation error: "@,
            BoostlssError::NotConverged(_) => "Model not converged: "@,
            BoostlssError::OutOfRange(_) => "Value out of range: "@,
            BoostlssError::SerializationError(_) => "Serialization error: "@,
            BoostlssError::InvalidStabselConfig(_) => "Invalid stability selection config: "@,
        }
    }

    /// The detail carried by the variant.
    pub open spec fn detail(&self) -> Seq<char> {
        match self {
            BoostlssError::InvalidConfig(s) => s@,
            BoostlssError::DataError(s) => s@,
            BoostlssError::NotConverged(s) => s@,
            BoostlssError::OutOfRange(s) => s@,
            BoostlssError::SerializationError(s) => s@,
            BoostlssError::InvalidStabselConfig(s) => s@,
        }
    }

    /// Renders the error as `<prefix><detail>`.
    pub fn to_string(&self) -> (r: String)
        ensures
            r@ == self.prefix() + self.detail(),
    {
        let (prefix, detail) = match self {
            BoostlssError::InvalidConfig(s) => ("Invalid configuration: ", s),
            BoostlssError::DataError(s) => ("Data validation error: ", s),
            BoostlssError::NotConverged(s) => ("Model not converged: ", s),
            BoostlssError::OutOfRange(s) => ("Value out of range: ", s),
            BoostlssError::SerializationError(s) => ("Serialization error: ", s),
            BoostlssError::InvalidStabselConfig(s) => ("Invalid stability selection config: ", s),
        };
        let mut r = String::from_str(prefix);
        r.append(detail.as_str());
        r
    }
}

/// Builds an owned string from a literal.
pub fn text(s: &str) -> (r: String)
    ensures
        r@ == s@,
{
    String::from_str(s)
}

/// The character of decimal digit `d`.
pub open spec fn digit_char(d: nat) -> char {
    (d + 48) as char
}

/// `n` written in decimal, most significant digit first, without leading
/// zeros.
pub open spec fn decimal(n: nat) -> Seq<char>
    decreases n,
{
    if n < 10 {
        seq![digit_char(n)]
    } else {
        decimal(n / 10).push(digit_char(n % 10))
    }
}

/// Renders `n` with `format!("{}", n)`: std's `Display` for an unsigned
/// integer writes it in decimal, without sign or leading zeros.
#[verifier::external_body]
pub fn decimal_text(n: usize) -> (r: String)
    ensures
        r@ == decimal(n as nat),
{
    format!("{}", n)
}

} // verus!
