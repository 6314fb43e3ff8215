//! Nacos configuration processing: `${VAR}` templates with dot-notation and
//! recursive resolution, deep merge of configs, YAML/JSON parsing into a
//! JSON document model, local config file names and parsing, and the
//! decisions of a caching config manager and of its HTTP transport.

pub mod codec;
pub mod error;
pub mod http_client;
pub mod json;
pub mod local_config;
pub mod manager;
pub mod merger;
pub mod nested;
pub mod parser;
pub mod template;
pub mod text;
pub mod utils;

pub use error::ConfigError;
pub use json::JsonValue;
pub use local_config::{config_candidates, parse_config_content};
pub use manager::{ConfigRef, ManagerCache, NacosConfigResult, NacosConnection};
pub use merger::ConfigMerger;
pub use parser::{ConfigParser, NacosParser, RawConfig};
pub use template::TemplateEngine;
pub use utils::NacosConfigUtils;
