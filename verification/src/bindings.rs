//! Distribution metadata describing bundled grammar compositions.
use vstd::prelude::*;

verus! {

/// A rule of a bundled composition: its optional name, its phase
/// (`block`, `inline` or `text`) and the extension payloads it produces.
pub struct RuleSpec {
    pub name: Option<String>,
    pub phase: &'static str,
    pub extensions: Vec<&'static str>,
}

/// A bundled preset: its description, the extension payloads it produces,
/// the plugins it selects and the order of its rules, by catalog index.
pub struct PresetSpec {
    pub description: String,
    pub extensions: Vec<&'static str>,
    pub plugins: Vec<usize>,
    pub order: Vec<usize>,
}

} // verus!
