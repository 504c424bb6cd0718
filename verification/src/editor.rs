use vstd::prelude::*;
use crate::hex::Cube;
use crate::world::{LocalityCategory, TileCategory, World};

verus! {

/// Which layer the editor's brush paints.
#[derive(Clone, Copy, PartialEq, Eq, Structural, Debug)]
pub enum BrushLayer {
    Tile,
    Locality,
}

/// How many terrain categories the brush cycles through.
pub const TILE_CATEGORY_COUNT: usize = 2;

/// How many locality categories the brush cycles through.
pub const LOCALITY_CATEGORY_COUNT: usize = 5;

/// The fixed brush order of the terrain categories.
pub open spec fn spec_tile_category_at(i: int) -> TileCategory {
    if i == 0 {
        TileCategory::Farmland
    } else {
        TileCategory::Water
    }
}

/// The fixed brush order of the locality categories.
pub open spec fn spec_locality_category_at(i: int) -> LocalityCategory {
    if i == 0 {
        LocalityCategory::Capital
    } else if i == 1 {
        LocalityCategory::SatelliteCapital
    } else if i == 2 {
        LocalityCategory::City
    } else if i == 3 {
        LocalityCategory::PortCity
    } else {
        LocalityCategory::Airport
    }
}

/// The terrain category at `i` in the fixed brush order.
pub fn tile_category_at(i: usize) -> (c: TileCategory)
    requires
        i < TILE_CATEGORY_COUNT,
    ensures
        c == spec_tile_category_at(i as int),
{
    if i == 0 {
        TileCategory::Farmland
    } else {
        TileCategory::Water
    }
}

/// The locality category at `i` in the fixed brush order.
pub fn locality_category_at(i: usize) -> (c: LocalityCategory)
    requires
        i < LOCALITY_CATEGORY_COUNT,
    ensures
        c == spec_locality_category_at(i as int),
{
    if i == 0 {
        LocalityCategory::Capital
    } else if i == 1 {
        LocalityCategory::SatelliteCapital
    } else if i == 2 {
        LocalityCategory::City
    } else if i == 3 {
        LocalityCategory::PortCity
    } else {
        LocalityCategory::Airport
    }
}

/// The map editor: an owned world plus a brush. The brush index selects a
/// category in the current layer's fixed order; the index one past the end
/// is the erase action.
pub struct Editor {
    pub world: World,
    pub brush_idx: usize,
    pub brush: BrushLayer,
    pub brush_size: usize,
}

impl Editor {
    /// The owned world keeps its invariant, and the brush index stays
    /// within the longest layer's cycle. Toggling layers keeps the index,
    /// so on a shorter layer a stale high index acts as the erase action
    /// until the next cycle wraps it.
    pub open spec fn wf(self) -> bool {
        self.world.wf() && self.brush_idx <= LOCALITY_CATEGORY_COUNT
    }

    /// A fresh editor over a world: terrain brush, first category.
    pub fn new(world: World) -> (e: Editor)
        requires
            world.wf(),
        ensures
            e.wf(),
            e.world == world,
            e.brush_idx == 0,
            e.brush == BrushLayer::Tile,
            e.brush_size == 1,
    {
        Editor { world, brush_idx: 0, brush: BrushLayer::Tile, brush_size: 1 }
    }

    /// Applies the brush at `cube`. A terrain category paints
    /// mutate-or-insert, preserving an existing tile's other fields; any
    /// index past the terrain categories acts as the erase action and
    /// removes the tile. A locality category paints only an existing tile,
    /// preserving its other fields; the index past the locality categories
    /// clears the locality. Other tiles are never touched.
    pub fn click(&mut self, cube: Cube)
        requires
            old(self).wf(),
            cube.wf(),
        ensures
            final(self).wf(),
            final(self).brush == old(self).brush,
            final(self).brush_idx == old(self).brush_idx,
            final(self).brush_size == old(self).brush_size,
            forall|d: Cube|
                d != cube && old(self).world.has_tile(d) ==> final(self).world.has_tile(d)
                    && final(self).world.tile_at(d) == old(self).world.tile_at(d),
            forall|d: Cube|
                d != cube && !old(self).world.has_tile(d) ==> !final(self).world.has_tile(d),
            old(self).brush == BrushLayer::Tile && old(self).brush_idx < TILE_CATEGORY_COUNT
                ==> final(self).world.has_tile(cube) && final(self).world.tile_at(cube).category
                == spec_tile_category_at(old(self).brush_idx as int),
            old(self).brush == BrushLayer::Tile && old(self).brush_idx < TILE_CATEGORY_COUNT
                && old(self).world.has_tile(cube) ==> {
                &&& final(self).world.tile_at(cube).locality == old(self).world.tile_at(
                    cube,
                ).locality
                &&& final(self).world.tile_at(cube).owner_index == old(self).world.tile_at(
                    cube,
                ).owner_index
                &&& final(self).world.tile_at(cube).army == old(self).world.tile_at(cube).army
            },
            old(self).brush == BrushLayer::Tile && old(self).brush_idx < TILE_CATEGORY_COUNT
                && !old(self).world.has_tile(cube) ==> {
                &&& final(self).world.tile_at(cube).locality is None
                &&& final(self).world.tile_at(cube).owner_index is None
                &&& final(self).world.tile_at(cube).army is None
            },
            old(self).brush == BrushLayer::Tile && old(self).brush_idx >= TILE_CATEGORY_COUNT
                ==> !final(self).world.has_tile(cube),
            old(self).brush == BrushLayer::Locality && old(self).world.has_tile(cube) ==> {
                &&& final(self).world.tile_at(cube).locality == (if old(self).brush_idx
                    < LOCALITY_CATEGORY_COUNT {
                    Some(spec_locality_category_at(old(self).brush_idx as int))
                } else {
                    None
                })
                &&& final(self).world.tile_at(cube).category == old(self).world.tile_at(
                    cube,
                ).category
                &&& final(self).world.tile_at(cube).owner_index == old(self).world.tile_at(
                    cube,
                ).owner_index
                &&& final(self).world.tile_at(cube).army == old(self).world.tile_at(cube).army
            },
            old(self).brush == BrushLayer::Locality && !old(self).world.has_tile(cube) ==> final(self).world.entries() == old(self).world.entries(),
    {
        match self.brush {
            BrushLayer::Tile => {
                if self.brush_idx < TILE_CATEGORY_COUNT {
                    let category = tile_category_at(self.brush_idx);
                    self.world.upsert_terrain(cube, category);
                } else {
                    self.world.clear_terrain(cube);
                }
            },
            BrushLayer::Locality => {
                if self.brush_idx < LOCALITY_CATEGORY_COUNT {
                    let category = locality_category_at(self.brush_idx);
                    self.world.set_locality(cube, Some(category));
                } else {
                    self.world.set_locality(cube, None);
                }
            },
        }
    }

    /// Advances the brush to the next category of the current layer,
    /// wrapping through the erase action back to the first category.
    pub fn right_click(&mut self)
        requires
            old(self).wf(),
        ensures
            final(self).wf(),
            final(self).world == old(self).world,
            final(self).brush == old(self).brush,
            final(self).brush_size == old(self).brush_size,
            final(self).brush_idx == (old(self).brush_idx + 1) as int % (match old(self).brush {
                BrushLayer::Tile => TILE_CATEGORY_COUNT as int + 1,
                BrushLayer::Locality => LOCALITY_CATEGORY_COUNT as int + 1,
            }),
    {
        let max: usize = match self.brush {
            BrushLayer::Tile => TILE_CATEGORY_COUNT,
            BrushLayer::Locality => LOCALITY_CATEGORY_COUNT,
        };
        self.brush_idx = (self.brush_idx + 1) % (max + 1);
    }

    /// Switches the brush between the terrain layer and the locality
    /// layer. The brush index is kept: on the terrain layer a stale index
    /// past its categories acts as the erase action.
    pub fn toggle_layer(&mut self)
        requires
            old(self).wf(),
        ensures
            final(self).wf(),
            final(self).world == old(self).world,
            final(self).brush_idx == old(self).brush_idx,
            final(self).brush_size == old(self).brush_size,
            final(self).brush == (match old(self).brush {
                BrushLayer::Tile => BrushLayer::Locality,
                BrushLayer::Locality => BrushLayer::Tile,
            }),
    {
        self.brush = match self.brush {
            BrushLayer::Tile => BrushLayer::Locality,
            BrushLayer::Locality => BrushLayer::Tile,
        };
    }
}

} // verus!
