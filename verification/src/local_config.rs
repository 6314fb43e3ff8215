use vstd::prelude::*;

use crate::codec::{json_document, json_from_str, yaml_document, yaml_from_str};
use crate::error::ConfigError;
use crate::json::JsonValue;
use crate::text::{lowercase, owned, to_lower};

verus! {

/// Extension search priority.
pub const CONFIG_EXTENSIONS: [&'static str; 3] = [".json", ".yaml", ".yml"];

/// The file names tried for a base name, in priority order
/// (`.json`, then `.yaml`, then `.yml`).
pub fn config_candidates(file_name: &str) -> (r: Vec<String>)
    ensures
        r@.len() == 3,
        r@[0]@ == file_name@ + ".json"@,
        r@[1]@ == file_name@ + ".yaml"@,
        r@[2]@ == file_name@ + ".yml"@,
{
    let mut out: Vec<String> = Vec::new();
    let exts = CONFIG_EXTENSIONS;
    let mut i: usize = 0;
    while i < 3
        invariant
            i <= 3,
            exts@ == CONFIG_EXTENSIONS@,
            out@.len() == i,
            forall|k: int| 0 <= k < i ==> out@[k]@ == file_name@ + exts@[k]@,
        decreases 3 - i,
    {
        let mut name = owned(file_name);
        name.append(exts[i]);
        out.push(name);
        i += 1;
    }
    out
}

/// Parse the content of a config file by its extension (compared after
/// lower-casing): `json` as JSON, `yaml` or `yml` as YAML; any other
/// extension is unsupported. Parse errors are reported, not replaced.
pub fn parse_config_content(extension: &str, content: &str) -> (r: Result<JsonValue, ConfigError>)
    ensures
        lowercase(extension@) == "json"@ ==> match r {
            Ok(v) => json_document(content@) == Some(v@),
            Err(ConfigError::Json(_)) => json_document(content@) is None,
            Err(_) => false,
        },
        (lowercase(extension@) == "yaml"@ || lowercase(extension@) == "yml"@) ==> match r {
            Ok(v) => yaml_document(content@) == Some(v@),
            Err(ConfigError::Yaml(_)) => yaml_document(content@) is None,
            Err(_) => false,
        },
        !(lowercase(extension@) == "json"@ || lowercase(extension@) == "yaml"@ || lowercase(
            extension@,
        ) == "yml"@) ==> (r matches Err(ConfigError::UnsupportedFormat(m)) && m@ == "."@
            + lowercase(extension@)),
{
    let ext = to_lower(extension);
    proof {
        reveal_strlit("json");
        reveal_strlit("yaml");
        reveal_strlit("yml");
        assert("json"@[0] != "yaml"@[0]);
        assert("json"@.len() != "yml"@.len());
    }
    if ext == owned("json") {
        match json_from_str(content) {
            Ok(v) => Ok(v),
            Err(e) => Err(ConfigError::Json(e)),
        }
    } else if ext == owned("yaml") || ext == owned("yml") {
        match yaml_from_str(content) {
            Ok(v) => Ok(v),
            Err(e) => Err(ConfigError::Yaml(e)),
        }
    } else {
        let mut m = owned(".");
        m.append(ext.as_str());
        Err(ConfigError::UnsupportedFormat(m))
    }
}

} // verus!
