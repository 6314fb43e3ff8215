use vstd::prelude::*;

use crate::codec::{json_document, json_from_str, yaml_document, yaml_from_str};
use crate::json::{empty_object, well_formed, Json, JsonValue};
use crate::text::owned;

verus! {

/// Config format selector.
#[derive(Clone, Copy, Debug, PartialEq, Eq, Structural)]
pub enum NacosParser {
    Yaml,
    Json,
}

impl NacosParser {
    /// File extension associated with the format (`.yml` / `.json`).
    pub fn extension(self) -> (r: &'static str)
        ensures
            r@ == match self {
                NacosParser::Yaml => ".yml"@,
                NacosParser::Json => ".json"@,
            },
    {
        match self {
            NacosParser::Yaml => ".yml",
            NacosParser::Json => ".json",
        }
    }
}

/// Raw config input: either an unparsed text or an already-parsed value.
#[derive(Debug)]
pub enum RawConfig {
    Str(String),
    Value(JsonValue),
}

impl RawConfig {
    /// The unparsed text `s`.
    pub fn text(s: &str) -> (r: RawConfig)
        ensures
            r matches RawConfig::Str(t) && t@ == s@,
    {
        RawConfig::Str(owned(s))
    }

    /// A copy of the already-parsed `v`.
    pub fn value(v: &JsonValue) -> (r: RawConfig)
        ensures
            r matches RawConfig::Value(x) && x@ == v@,
    {
        RawConfig::Value(v.deep_copy())
    }
}

impl From<String> for RawConfig {
    fn from(s: String) -> (r: RawConfig) {
        RawConfig::Str(s)
    }
}

impl vstd::std_specs::convert::FromSpecImpl<String> for RawConfig {
    open spec fn obeys_from_spec() -> bool {
        true
    }

    open spec fn from_spec(s: String) -> RawConfig {
        RawConfig::Str(s)
    }
}

impl From<JsonValue> for RawConfig {
    fn from(v: JsonValue) -> (r: RawConfig) {
        RawConfig::Value(v)
    }
}

impl vstd::std_specs::convert::FromSpecImpl<JsonValue> for RawConfig {
    open spec fn obeys_from_spec() -> bool {
        true
    }

    open spec fn from_spec(v: JsonValue) -> RawConfig {
        RawConfig::Value(v)
    }
}

/// What `ConfigParser::parse` gives for `raw` in format `fmt`: an object
/// wherever parsing fails or YAML yields something other than an object.
pub open spec fn parse_spec(raw: RawConfig, fmt: NacosParser) -> Json {
    match raw {
        RawConfig::Value(v) => match fmt {
            NacosParser::Json => v@,
            NacosParser::Yaml => if v@ is Object {
                v@
            } else {
                empty_object()
            },
        },
        RawConfig::Str(s) => parse_text_spec(s@, fmt),
    }
}

/// What `ConfigParser::parse` gives for an unparsed text in format `fmt`.
pub open spec fn parse_text_spec(text: Seq<char>, fmt: NacosParser) -> Json {
    match fmt {
        NacosParser::Json => match json_document(text) {
            Some(d) => d,
            None => empty_object(),
        },
        NacosParser::Yaml => match yaml_document(text) {
            Some(d) => if d is Object {
                d
            } else {
                empty_object()
            },
            None => empty_object(),
        },
    }
}

/// Parsing as YAML always gives an object: invalid input degrades to `{}`.
pub proof fn law_yaml_gives_object(raw: RawConfig)
    ensures
        parse_spec(raw, NacosParser::Yaml) is Object,
{
}

/// An unparsed text, or an already-parsed value that is well-formed.
pub open spec fn raw_well_formed(raw: RawConfig) -> bool {
    match raw {
        RawConfig::Value(v) => well_formed(v@),
        RawConfig::Str(_) => true,
    }
}

/// Zero-sized handle for config parsing.
pub struct ConfigParser;

impl ConfigParser {
    /// Parse `raw` according to `fmt`. On a parse error an empty object is
    /// returned.
    ///
    /// - `Json` + text: parsed as JSON (the document returned as it is)
    /// - `Yaml` + text: parsed as YAML; a non-object document becomes `{}`
    /// - already-parsed value: returned as it is for `Json`; for `Yaml`
    ///   returned when it is an object, else `{}`
    pub fn parse(raw: RawConfig, fmt: NacosParser) -> (r: JsonValue)
        ensures
            r@ == parse_spec(raw, fmt),
            raw_well_formed(raw) ==> well_formed(r@),
    {
        match raw {
            RawConfig::Value(v) => match fmt {
                NacosParser::Json => v,
                NacosParser::Yaml => {
                    if v.is_object() {
                        v
                    } else {
                        JsonValue::empty_object()
                    }
                },
            },
            RawConfig::Str(s) => match fmt {
                NacosParser::Json => match json_from_str(s.as_str()) {
                    Ok(v) => v,
                    Err(_) => JsonValue::empty_object(),
                },
                NacosParser::Yaml => match yaml_from_str(s.as_str()) {
                    Ok(v) => {
                        if v.is_object() {
                            v
                        } else {
                            JsonValue::empty_object()
                        }
                    },
                    Err(_) => JsonValue::empty_object(),
                },
            },
        }
    }
}

} // verus!
