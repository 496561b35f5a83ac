//! Region records shared by the grouping and scheduling stages.
use vstd::prelude::*;

verus! {

/// Info about one region (or one aggregated tile) relevant to grouping and
/// impostor scheduling. Coordinates and sizes are in meters.
#[derive(Debug, Clone, PartialEq)]
pub struct RegionData {
    /// Which grid
    pub grid: String,
    /// X of the lower left corner
    pub region_coords_x: u32,
    /// Y of the lower left corner
    pub region_coords_y: u32,
    /// X size
    pub size_x: u32,
    /// Y size
    pub size_y: u32,
    /// Region name
    pub name: String,
    /// Level of detail: 0 for a base region, k for a 2^k by 2^k block of them
    pub lod: u8,
}

/// How an impostor tile is represented.
#[derive(Debug, Clone, Copy, PartialEq, Eq, Structural)]
pub enum TileType {
    /// As a sculpt
    Sculpt,
    /// As a mesh
    Mesh,
}

impl RegionData {
    /// A region is well formed when its sizes are positive and its far
    /// corner stays inside the coordinate range.
    pub open spec fn wf(&self) -> bool {
        &&& self.size_x > 0
        &&& self.size_y > 0
        &&& self.region_coords_x + self.size_x <= u32::MAX
        &&& self.region_coords_y + self.size_y <= u32::MAX
    }

    /// Lower left corner.
    pub open spec fn loc(&self) -> (u32, u32) {
        (self.region_coords_x, self.region_coords_y)
    }

    /// Usual new.
    pub fn new(grid: String, region_coords_x: u32, region_coords_y: u32, size_x: u32, size_y: u32, name: String) -> (r: RegionData)
        ensures
            r.grid == grid,
            r.region_coords_x == region_coords_x,
            r.region_coords_y == region_coords_y,
            r.size_x == size_x,
            r.size_y == size_y,
            r.name == name,
            r.lod == 0,
    {
        RegionData { grid, region_coords_x, region_coords_y, size_x, size_y, name, lod: 0 }
    }

    /// A copy of this record, field for field.
    pub fn duplicate(&self) -> (r: RegionData)
        ensures
            r == *self,
    {
        RegionData {
            grid: self.grid.clone(),
            region_coords_x: self.region_coords_x,
            region_coords_y: self.region_coords_y,
            size_x: self.size_x,
            size_y: self.size_y,
            name: self.name.clone(),
            lod: self.lod,
        }
    }
}

} // verus!
