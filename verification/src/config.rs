//! Block configuration as read from `blocks.toml`.
//!
//! Maps keyed by strings in the file (`state_schema`, selector maps,
//! lighting profiles) are held as association lists: a vector of
//! `(key, value)` pairs in which no key occurs twice.
use vstd::prelude::*;

verus! {

/// Top-level blocks config file.
pub struct BlocksConfig {
    pub blocks: Vec<BlockDef>,
    pub lighting: Option<LightingConfig>,
    /// Name of the block used as fallback when a requested block is unavailable.
    pub unknown_block: Option<String>,
}

pub struct BlockDef {
    pub name: String,
    pub id: Option<u16>,
    pub solid: Option<bool>,
    pub blocks_skylight: Option<bool>,
    pub propagates_light: Option<bool>,
    pub emission: Option<u8>,
    pub light_profile: Option<String>,
    pub light: Option<LightProfile>,
    pub shape: Option<ShapeConfig>,
    pub materials: Option<MaterialsDef>,
    /// property name -> allowed values
    pub state_schema: Option<Vec<(String, Vec<String>)>>,
    pub seam: Option<SeamPolicyCfg>,
}

/// Shape config: either a simple string ("cube") or a detailed table.
pub enum ShapeConfig {
    Simple(String),
    Detailed(ShapeDetailed),
}

pub struct ShapeDetailed {
    pub kind: String,
    pub axis: Option<PropertyFrom>,
    pub half: Option<PropertyFrom>,
    pub facing: Option<PropertyFrom>,
    pub open: Option<PropertyFrom>,
}

pub struct PropertyFrom {
    pub from: String,
}

/// Materials mapping: all/top/bottom/side, each a key or a by-property map.
pub struct MaterialsDef {
    pub all: Option<MaterialSelector>,
    pub top: Option<MaterialSelector>,
    pub bottom: Option<MaterialSelector>,
    pub side: Option<MaterialSelector>,
}

pub enum MaterialSelector {
    Key(String),
    By { by: String, map: Vec<(String, String)> },
}

/// Top-level lighting config with reusable named profiles.
pub struct LightingConfig {
    pub profiles: Vec<(String, LightProfile)>,
}

#[derive(Clone, Copy, Debug, PartialEq, Eq, Structural)]
pub enum LightProfile {
    Omni { attenuation: u8, max_range: Option<u16> },
    Beam {
        straight_cost: u8,
        turn_cost: u8,
        vertical_cost: u8,
        source_dirs: SourceDirs,
        max_range: Option<u16>,
    },
}

#[derive(Clone, Copy, Debug, PartialEq, Eq, Structural)]
pub enum SourceDirs {
    Horizontal,
    Vertical,
    Any,
}

/// Seam policies for neighbor occlusion and fixups.
#[derive(Clone, Copy, Debug, PartialEq, Eq, Structural)]
pub enum SeamPolicyCfg {
    Default,
    DontOccludeSame,
    DontProjectFixups,
}

pub fn default_omni_atten() -> (r: u8)
    ensures
        r == 32,
{
    32
}

pub fn default_beam_straight() -> (r: u8)
    ensures
        r == 1,
{
    1
}

pub fn default_beam_turn() -> (r: u8)
    ensures
        r == 32,
{
    32
}

pub fn default_beam_vertical() -> (r: u8)
    ensures
        r == 32,
{
    32
}

pub fn default_source_dirs() -> (r: SourceDirs)
    ensures
        r == SourceDirs::Horizontal,
{
    SourceDirs::Horizontal
}

} // verus!
