//! A generalised Vigenère cipher over an alphabet chosen by the user, with a
//! normalisation layer that folds arbitrary text down to that alphabet.

pub mod ordinal;
pub mod parser;
pub mod encoders;
pub mod encoding;
pub mod error;
mod text;

pub use ordinal::{transform, Action, EncodeNum};
pub use error::{ConfigError, Error};
pub use encoding::{transcode, Encoding};
pub use encoders::{alpha, alpha_space, alphanumeric, alphanumeric_space, short_abc};
pub use parser::{new_from_toml, read_toml_string, ConfigItem, ConfigValue};
