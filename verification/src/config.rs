//! Project-wide configuration: GDS layer assignments and design rules.
use vstd::prelude::*;

verus! {

/// Grid precision lower bound in nanometres.
pub const MIN_GRID_NM: u32 = 100;

/// Grid precision used by a new project, in nanometres.
pub const DEFAULT_GRID_NM: u32 = 150;

/// GDS layer assignments. Defaults to sky130 met1.
#[derive(Debug, Clone, Copy, PartialEq, Eq)]
pub struct LayerConfig {
    pub text_layer: i16,
    pub text_datatype: i16,
    pub fill_layer: i16,
    pub fill_datatype: i16,
}

impl Default for LayerConfig {
    fn default() -> (r: Self)
        ensures
            r.text_layer == 68,
            r.text_datatype == 20,
            r.fill_layer == 68,
            r.fill_datatype == 44,
    {
        LayerConfig { text_layer: 68, text_datatype: 20, fill_layer: 68, fill_datatype: 44 }
    }
}

/// Sky130-inspired design rule minimums in nanometres.
#[derive(Debug, Clone, Copy, PartialEq, Eq)]
pub struct DesignRules {
    pub min_width_nm: u32,
    pub min_spacing_nm: u32,
    pub fill_to_metal_spacing_nm: u32,
}

impl Default for DesignRules {
    fn default() -> (r: Self)
        ensures
            r.min_width_nm == 200,
            r.min_spacing_nm == 200,
            r.fill_to_metal_spacing_nm == 400,
    {
        DesignRules { min_width_nm: 200, min_spacing_nm: 200, fill_to_metal_spacing_nm: 400 }
    }
}

} // verus!
