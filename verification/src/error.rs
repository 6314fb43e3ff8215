use vstd::prelude::*;

use crate::codec::{io_error_text, json_error_text, yaml_error_text};
use crate::text::owned;

verus! {

/// Errors produced by config file parsing and the Nacos client layer.
#[derive(Debug)]
pub enum ConfigError {
    /// File extension is not one of `.json`, `.yaml`, `.yml`.
    UnsupportedFormat(String),
    Io(std::io::Error),
    Json(serde_json::Error),
    Yaml(serde_norway::Error),
    /// Error surfaced from the Nacos transport.
    Nacos(String),
    /// A template parameter's chain of resolution does not come to rest
    /// within `chain_limit()` rounds: it comes back to a value it held
    /// before (a cycle such as `a: ${b}`, `b: ${a}`), so it never will.
    UnresolvedTemplate,
}

impl ConfigError {
    /// The message of this error, as its display text.
    pub fn message(&self) -> (r: String)
        ensures
            self matches ConfigError::UnsupportedFormat(s) ==> r@ == "Unsupported file format: "@ + s@,
            self matches ConfigError::Nacos(s) ==> r@ == "nacos error: "@ + s@,
            self matches ConfigError::UnresolvedTemplate ==> r@
                == "template parameters do not resolve within the allowed rounds"@,
    {
        match self {
            ConfigError::UnsupportedFormat(s) => {
                let mut m = owned("Unsupported file format: ");
                m.append(s.as_str());
                m
            },
            ConfigError::Io(e) => io_error_text(e),
            ConfigError::Json(e) => json_error_text(e),
            ConfigError::Yaml(e) => yaml_error_text(e),
            ConfigError::Nacos(s) => {
                let mut m = owned("nacos error: ");
                m.append(s.as_str());
                m
            },
            ConfigError::UnresolvedTemplate => owned(
                "template parameters do not resolve within the allowed rounds",
            ),
        }
    }
}

} // verus!
