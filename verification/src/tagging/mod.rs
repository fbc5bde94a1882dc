//! Tagging: rules, rule packs, and applying them.

pub mod builtin;
pub mod engine;
pub mod pack_bundle;
pub mod pack_diff;
pub mod pack_offers;
pub mod pack_trust;
pub mod pack_update;
pub mod rule;
pub mod rule_file;
pub mod rule_matching;
pub mod rule_names;
