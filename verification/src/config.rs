//! Configuration of a hive.
//!
//! The hive reads its configuration from a `hive.toml` file at startup; the
//! reading happens outside the library, which holds the schema.
use vstd::prelude::*;

verus! {

/// Top-level hive configuration loaded from `hive.toml`.
#[derive(Clone, Copy, Debug, PartialEq, Eq, Structural)]
pub struct HiveConfig {}

impl HiveConfig {
    /// Return the default configuration for bootstrapping.
    pub fn default() -> (c: HiveConfig)
        ensures
            c == (HiveConfig {}),
    {
        HiveConfig {}
    }
}

/// LLM provider configuration.
#[derive(Debug)]
pub struct LlmProviderConfig;

/// Resource limit configuration.
#[derive(Debug)]
pub struct ResourceLimits;

/// Per-pod-type configuration entry.
#[derive(Debug)]
pub struct PodTypeConfig;

/// Knowledge base configuration.
#[derive(Debug)]
pub struct KnowledgeBaseConfig;

/// Fork lineage configuration.
#[derive(Debug)]
pub struct LineageConfig;

/// Self-modification behavior configuration.
#[derive(Debug)]
pub struct SelfModificationConfig;

} // verus!
