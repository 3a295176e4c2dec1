//! The ways in which building an encoding or transforming a message fails.

use crate::ordinal::EncodeNum;
use crate::text::join_chars;
use vstd::prelude::*;
use vstd::string::StringExecFns;

verus! {

/// A configuration document that does not describe an encoding.
#[derive(Clone, PartialEq, Eq, Debug)]
pub enum ConfigError {
    /// A recognised key holds a value of the wrong shape.
    SchemaError(String),
    /// A value that must be exactly one character is empty or longer.
    ValueNotChar(String),
    /// The text is not well-formed TOML.
    InvalidToml,
}

/// What a `ConfigError` says, with its description as a sequence of characters.
pub enum ConfigFault {
    Schema(Seq<char>),
    NotChar(Seq<char>),
    InvalidToml,
}

impl View for ConfigError {
    type V = ConfigFault;

    open spec fn view(&self) -> ConfigFault {
        match self {
            ConfigError::SchemaError(s) => ConfigFault::Schema(s@),
            ConfigError::ValueNotChar(s) => ConfigFault::NotChar(s@),
            ConfigError::InvalidToml => ConfigFault::InvalidToml,
        }
    }
}

/// A failure of the library.
#[derive(Clone, PartialEq, Eq, Debug)]
pub enum Error {
    /// The configuration document was rejected.
    InvalidConfig(ConfigError),
    /// A character outside the alphabet was met.
    CharNotInEncoding(char),
    /// An ordinal with no character in the alphabet was met.
    NumberNotInEncoding(EncodeNum),
    /// A message was to be shifted by a key without characters.
    EmptyKey,
}

impl From<ConfigError> for Error {
    fn from(err: ConfigError) -> (r: Error)
        ensures
            r == Error::InvalidConfig(err),
    {
        Error::InvalidConfig(err)
    }
}

impl vstd::std_specs::convert::FromSpecImpl<ConfigError> for Error {
    open spec fn obeys_from_spec() -> bool {
        true
    }

    open spec fn from_spec(v: ConfigError) -> Error {
        Error::InvalidConfig(v)
    }
}

impl ConfigError {
    /// A short account of the kind of failure.
    pub fn description(&self) -> (r: &'static str)
        ensures
            r@ == match self {
                ConfigError::SchemaError(_) => "could not parse config as Encoding"@,
                ConfigError::ValueNotChar(_) => "string was not a single char"@,
                ConfigError::InvalidToml => "string was not valid TOML"@,
            },
    {
        match self {
            ConfigError::SchemaError(_) => "could not parse config as Encoding",
            ConfigError::ValueNotChar(_) => "string was not a single char",
            ConfigError::InvalidToml => "string was not valid TOML",
        }
    }

    /// The failure as a line of text for the user.
    pub fn message(&self) -> (r: String)
        ensures
            r@ == match self {
                ConfigError::SchemaError(s) => "SchemaError: "@ + s@,
                ConfigError::ValueNotChar(s) => "ValueNotChar: "@ + s@,
                ConfigError::InvalidToml => "String is not valid TOML"@,
            },
    {
        match self {
            ConfigError::SchemaError(s) => String::from_str("SchemaError: ").concat(s.as_str()),
            ConfigError::ValueNotChar(s) => String::from_str("ValueNotChar: ").concat(s.as_str()),
            ConfigError::InvalidToml => String::from_str("String is not valid TOML"),
        }
    }
}

impl Error {
    /// A short account of the kind of failure.
    pub fn description(&self) -> (r: &'static str)
        ensures
            r@ == match self {
                Error::InvalidConfig(_) => "could not parse config as Encoding"@,
                Error::CharNotInEncoding(_) => "found char not in encoding"@,
                Error::NumberNotInEncoding(_) => "found number not in encoding"@,
                Error::EmptyKey => "key has no characters"@,
            },
    {
        match self {
            Error::InvalidConfig(_) => "could not parse config as Encoding",
            Error::CharNotInEncoding(_) => "found char not in encoding",
            Error::NumberNotInEncoding(_) => "found number not in encoding",
            Error::EmptyKey => "key has no characters",
        }
    }

    /// The failure as a line of text for the user.
    pub fn message(&self) -> (r: String)
        ensures
            r@ == match self {
                Error::InvalidConfig(e) => config_message(*e),
                Error::CharNotInEncoding(c) => "Char "@ + seq![*c] + " not in encoding"@,
                Error::NumberNotInEncoding(n) => "Number "@ + decimal(n.0 as nat)
                    + " not in encoding"@,
                Error::EmptyKey => "Key has no characters"@,
            },
    {
        match self {
            Error::InvalidConfig(e) => e.message(),
            Error::CharNotInEncoding(c) => {
                let one = vec![*c];
                String::from_str("Char ").concat(join_chars(&one).as_str()).concat(
                    " not in encoding",
                )
            },
            Error::NumberNotInEncoding(n) => {
                let digits = decimal_digits(n.0);
                String::from_str("Number ").concat(join_chars(&digits).as_str()).concat(
                    " not in encoding",
                )
            },
            Error::EmptyKey => String::from_str("Key has no characters"),
        }
    }
}

/// What `ConfigError::message` returns.
pub open spec fn config_message(e: ConfigError) -> Seq<char> {
    match e {
        ConfigError::SchemaError(s) => "SchemaError: "@ + s@,
        ConfigError::ValueNotChar(s) => "ValueNotChar: "@ + s@,
        ConfigError::InvalidToml => "String is not valid TOML"@,
    }
}

/// The decimal digits of `n`, most significant first, without leading zeros.
pub open spec fn decimal(n: nat) -> Seq<char>
    decreases n,
{
    if n < 10 {
        seq![digit_char(n)]
    } else {
        decimal(n / 10).push(digit_char(n % 10))
    }
}

/// The character of the decimal digit `d`.
pub open spec fn digit_char(d: nat) -> char {
    (48 + d) as char
}

fn decimal_digits(n: u64) -> (r: Vec<char>)
    ensures
        r@ == decimal(n as nat),
    decreases n,
{
    let d = n % 10;
    let c: char = if d == 0 {
        '0'
    } else if d == 1 {
        '1'
    } else if d == 2 {
        '2'
    } else if d == 3 {
        '3'
    } else if d == 4 {
        '4'
    } else if d == 5 {
        '5'
    } else if d == 6 {
        '6'
    } else if d == 7 {
        '7'
    } else if d == 8 {
        '8'
    } else {
        '9'
    };
    if n < 10 {
        vec![c]
    } else {
        let mut r = decimal_digits(n / 10);
        r.push(c);
        r
    }
}

} // verus!
