//! Project configuration as plain values, with verified validation.
//! Reading the configuration file from disk and decoding it belong to the
//! surrounding program; the library receives the decoded values and checks
//! them here.

use vstd::prelude::*;
use crate::textutil::str_eq;

verus! {

/// A file written verbatim before generation begins; it takes part in no
/// fingerprinting and no caching.
#[derive(Debug)]
pub struct StaticFile {
    pub path: String,
    pub content: String,
}

#[derive(Debug)]
pub struct ProjectConfig {
    pub name: String,
    pub version: String,
    /// Prompt-to-output mapping mode; `manifest` requires every prompt to
    /// declare its outputs.
    pub mapping: String,
}

#[derive(Debug)]
pub struct LanguageConfig {
    pub default: String,
    pub version: String,
}

#[derive(Debug)]
pub struct FrameworkConfig {
    pub name: String,
    pub version: String,
}

#[derive(Debug)]
pub struct ApiConfig {
    /// Name of the environment variable holding the API key.
    pub key_env: String,
}

/// Per-million-token pricing in micro-dollars (1 USD = 1_000_000).
#[derive(Debug)]
pub struct PricingConfig {
    pub input_per_million_micro: u64,
    pub output_per_million_micro: u64,
}

/// Model parameters. The sampling temperature is held in thousandths, so
/// the admissible range 0.0 ..= 2.0 becomes 0 ..= 2000.
#[derive(Debug)]
pub struct ModelConfig {
    pub provider: String,
    pub model: String,
    pub temperature_milli: u32,
    pub seed: Option<u64>,
    pub api: Option<ApiConfig>,
    pub pricing: Option<PricingConfig>,
}

/// The whole project configuration.
#[derive(Debug)]
pub struct LitConfig {
    pub project: ProjectConfig,
    pub language: LanguageConfig,
    pub framework: Option<FrameworkConfig>,
    pub model: ModelConfig,
    pub static_files: Vec<StaticFile>,
}

/// A configuration value rejected by validation, with the offending value.
#[derive(Debug)]
pub enum ConfigError {
    InvalidMappingMode(String),
    InvalidTemperature(u32),
    InvalidProvider(String),
}

/// The admissible prompt-to-output mapping modes.
pub open spec fn valid_mapping_mode(m: Seq<char>) -> bool {
    m == "direct"@ || m == "manifest"@ || m == "modular"@ || m == "inferred"@
}

/// The providers the generation layer knows how to call.
pub open spec fn valid_provider(p: Seq<char>) -> bool {
    p == "anthropic"@ || p == "openai"@
}

/// The highest admissible temperature, in thousandths.
pub const MAX_TEMPERATURE_MILLI: u32 = 2000;

impl LitConfig {
    /// Checks the mapping mode, the temperature range and the provider, in
    /// that order, and reports the first value that is out of range.
    pub fn validate(&self) -> (r: Result<(), ConfigError>)
        ensures
            r is Ok <==> valid_mapping_mode(self.project.mapping@)
                && self.model.temperature_milli <= MAX_TEMPERATURE_MILLI && valid_provider(
                self.model.provider@,
            ),
            !valid_mapping_mode(self.project.mapping@) ==> (r matches Err(
                ConfigError::InvalidMappingMode(m),
            ) && m@ == self.project.mapping@),
            valid_mapping_mode(self.project.mapping@) && self.model.temperature_milli
                > MAX_TEMPERATURE_MILLI ==> (r matches Err(ConfigError::InvalidTemperature(t)) && t
                == self.model.temperature_milli),
            valid_mapping_mode(self.project.mapping@) && self.model.temperature_milli
                <= MAX_TEMPERATURE_MILLI && !valid_provider(self.model.provider@) ==> (r matches
            Err(ConfigError::InvalidProvider(p)) && p@ == self.model.provider@),
    {
        let mapping = self.project.mapping.as_str();
        let mapping_ok = str_eq(mapping, "direct") || str_eq(mapping, "manifest") || str_eq(
            mapping,
            "modular",
        ) || str_eq(mapping, "inferred");
        if !mapping_ok {
            return Err(ConfigError::InvalidMappingMode(crate::textutil::str_copy(mapping)));
        }
        if self.model.temperature_milli > MAX_TEMPERATURE_MILLI {
            return Err(ConfigError::InvalidTemperature(self.model.temperature_milli));
        }
        let provider = self.model.provider.as_str();
        if !(str_eq(provider, "anthropic") || str_eq(provider, "openai")) {
            return Err(ConfigError::InvalidProvider(crate::textutil::str_copy(provider)));
        }
        Ok(())
    }

    /// The project runs in manifest mode: prompts must declare outputs.
    pub fn is_manifest_mode(&self) -> (r: bool)
        ensures
            r == (self.project.mapping@ == "manifest"@),
    {
        str_eq(self.project.mapping.as_str(), "manifest")
    }
}

} // verus!
