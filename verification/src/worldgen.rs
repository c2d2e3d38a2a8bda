//! World generation settings that the verified generator reads: the mode,
//! the flat-world slab, block names for the surface layers, and feature
//! placements. Tuning values that are floating point live with the noise
//! sampling outside this library.
use vstd::prelude::*;

verus! {

#[derive(Clone, Copy, Debug, PartialEq, Eq, Structural)]
pub enum Mode {
    Normal,
    Flat,
}

pub fn default_mode() -> (r: Mode)
    ensures
        r == Mode::Normal,
{
    Mode::Normal
}

/// The flat world's stone slab.
#[derive(Clone, Copy, Debug, PartialEq, Eq, Structural)]
pub struct Flat {
    pub thickness: i32,
}

pub fn default_flat_thickness() -> (r: i32)
    ensures
        r == 1,
{
    1
}

impl Default for Flat {
    fn default() -> (r: Flat)
        ensures
            r.thickness == 1,
    {
        Flat { thickness: 1 }
    }
}

/// Block names of the top layer: high ground, low ground, and in between.
pub struct TopNames {
    pub high: String,
    pub low: String,
    pub mid: String,
}

/// Block names below the top layer: near the surface and deep down.
pub struct SubsoilNames {
    pub near_surface: String,
    pub deep: String,
}

pub fn default_topsoil() -> (r: i32)
    ensures
        r == 3,
{
    3
}

pub fn default_top_names() -> (r: TopNames)
    ensures
        r.high@ == "snow"@ && r.low@ == "sand"@ && r.mid@ == "grass"@,
{
    TopNames { high: "snow".to_owned(), low: "sand".to_owned(), mid: "grass".to_owned() }
}

pub fn default_sub_names() -> (r: SubsoilNames)
    ensures
        r.near_surface@ == "dirt"@ && r.deep@ == "stone"@,
{
    SubsoilNames { near_surface: "dirt".to_owned(), deep: "stone".to_owned() }
}

pub fn default_carvers_enable() -> (r: bool)
    ensures
        r,
{
    true
}

pub fn default_trunk_min() -> (r: i32)
    ensures
        r == 4,
{
    4
}

pub fn default_trunk_max() -> (r: i32)
    ensures
        r == 6,
{
    6
}

pub fn default_leaf_radius() -> (r: i32)
    ensures
        r == 2,
{
    2
}

/// Octave count of a fractal noise layer.
pub fn d_oct() -> (r: i32)
    ensures
        r == 4,
{
    4
}

/// The block a feature rule places.
pub struct FeaturePlace {
    pub block: String,
}

} // verus!
