//! The height maps that a chunk packet carries. They are passed through:
//! nothing here reads them.

use vstd::prelude::*;

verus! {

/// The height maps of a chunk, as a named tag.
#[derive(Debug, Clone)]
pub struct HeightMaps {
    pub _type: String,
    pub name: String,
    pub value: HeightMapsValues,
}

/// One height map for each kind of surface.
#[derive(Debug, Clone)]
pub struct HeightMapsValues {
    pub motion_blocking: Option<HeightMapsValue>,
    pub motion_blocking_no_leaves: Option<HeightMapsValue>,
    pub ocean_floor: Option<HeightMapsValue>,
    pub ocean_floor_wg: Option<HeightMapsValue>,
    pub world_surface: Option<HeightMapsValue>,
    pub world_surface_wg: Option<HeightMapsValue>,
}

/// One height map: packed words, each given in two halves.
#[derive(Debug, Clone)]
pub struct HeightMapsValue {
    pub _type: String,
    pub value: Vec<Vec<i64>>,
}

} // verus!
