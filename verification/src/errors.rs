//! Error taxonomy of the pipeline. Fatal categories (input, authentication,
//! network) stop a run before any output is produced; local categories
//! (write, timeout) are collected per job and reported at the end.

use vstd::prelude::*;
use vstd::string::StringExecFns;

verus! {

/// One error of the pipeline, carrying a human-readable detail string.
#[derive(Debug)]
pub enum ConfigError {
    /// The server listing or the geolocation fetch failed.
    NetworkError(String),
    /// A file or directory operation failed for one write job.
    IoError(String),
    /// The provider's response could not be decoded.
    SerdeError(String),
    /// The access token was rejected or unusable.
    AccessTokenError(String),
    /// Interactive input failed validation.
    InputError(String),
    /// A write job exceeded its completion deadline during the final drain.
    TimeoutError(String),
}

impl ConfigError {
    /// The detail string the error was built with.
    pub open spec fn spec_detail(self) -> Seq<char> {
        match self {
            ConfigError::NetworkError(s) => s@,
            ConfigError::IoError(s) => s@,
            ConfigError::SerdeError(s) => s@,
            ConfigError::AccessTokenError(s) => s@,
            ConfigError::InputError(s) => s@,
            ConfigError::TimeoutError(s) => s@,
        }
    }

    /// Whether the category stops the whole run rather than one job.
    pub open spec fn spec_is_fatal(self) -> bool {
        match self {
            ConfigError::NetworkError(_) => true,
            ConfigError::IoError(_) => false,
            ConfigError::SerdeError(_) => true,
            ConfigError::AccessTokenError(_) => true,
            ConfigError::InputError(_) => true,
            ConfigError::TimeoutError(_) => false,
        }
    }

    /// Whether this error aborts the run (input, auth, decode, network)
    /// as opposed to being collected per job (write failure, timeout).
    pub fn is_fatal(&self) -> (r: bool)
        ensures
            r == self.spec_is_fatal(),
    {
        match self {
            ConfigError::NetworkError(_) => true,
            ConfigError::IoError(_) => false,
            ConfigError::SerdeError(_) => true,
            ConfigError::AccessTokenError(_) => true,
            ConfigError::InputError(_) => true,
            ConfigError::TimeoutError(_) => false,
        }
    }

    /// A display line in the shape `<category>: <detail>`.
    pub fn message(&self) -> (r: String)
        ensures
            r@ == self.spec_category_label() + self.spec_detail(),
    {
        let mut out = match self {
            ConfigError::NetworkError(_) => String::from_str("Network error: "),
            ConfigError::IoError(_) => String::from_str("IO error: "),
            ConfigError::SerdeError(_) => String::from_str("Serde JSON error: "),
            ConfigError::AccessTokenError(_) => String::from_str("Access token error: "),
            ConfigError::InputError(_) => String::from_str("Input error: "),
            ConfigError::TimeoutError(_) => String::from_str("Timeout error: "),
        };
        match self {
            ConfigError::NetworkError(s) => out.append(s.as_str()),
            ConfigError::IoError(s) => out.append(s.as_str()),
            ConfigError::SerdeError(s) => out.append(s.as_str()),
            ConfigError::AccessTokenError(s) => out.append(s.as_str()),
            ConfigError::InputError(s) => out.append(s.as_str()),
            ConfigError::TimeoutError(s) => out.append(s.as_str()),
        }
        out
    }

    /// The category prefix used by `message`.
    pub open spec fn spec_category_label(self) -> Seq<char> {
        match self {
            ConfigError::NetworkError(_) => "Network error: "@,
            ConfigError::IoError(_) => "IO error: "@,
            ConfigError::SerdeError(_) => "Serde JSON error: "@,
            ConfigError::AccessTokenError(_) => "Access token error: "@,
            ConfigError::InputError(_) => "Input error: "@,
            ConfigError::TimeoutError(_) => "Timeout error: "@,
        }
    }
}

/// A bare detail string converts to an input error, mirroring how
/// interactive-input failures enter the taxonomy.
impl From<String> for ConfigError {
    fn from(error: String) -> (r: ConfigError) {
        ConfigError::InputError(error)
    }
}

impl vstd::std_specs::convert::FromSpecImpl<String> for ConfigError {
    open spec fn obeys_from_spec() -> bool {
        true
    }

    open spec fn from_spec(error: String) -> ConfigError {
        ConfigError::InputError(error)
    }
}

} // verus!
