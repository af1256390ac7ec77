//! Tileset selection: the source atlas presented as a grid of tile ids
//! (with the atlas's vertical axis flipped), and the rectangular selection
//! used when painting.

use vstd::prelude::*;
use crate::map::{empty_tile, TileData, TileGrid};
use crate::map_data::cell_of_id;

verus! {

/// Columns of the displayed tileset grid.
pub const MAX_TILE_X: u32 = 10;

/// Rows of the displayed tileset grid.
pub const MAX_TILE_Y: u32 = 20;

/// One tile of a source atlas: its id and its pixel position in the sheet.
#[derive(Clone, Copy, PartialEq, Eq, Structural, Debug)]
pub struct AtlasTile {
    pub id: u32,
    pub x: u32,
    pub y: u32,
}

/// Every atlas tile falls inside the displayed grid once divided by the
/// tile pixel size.
pub open spec fn atlas_fits(tiles: Seq<AtlasTile>, tile_size: int) -> bool {
    &&& tile_size >= 1
    &&& forall|i: int|
        0 <= i < tiles.len() ==> (#[trigger] tiles[i]).x as int / tile_size < MAX_TILE_X as int
            && tiles[i].y as int / tile_size < MAX_TILE_Y as int
}

/// The id shown at grid cell `(gx, gy)` after placing every atlas tile in
/// order (later tiles win), with the vertical axis flipped; `0` when no
/// tile lands there.
pub open spec fn placed_id(tiles: Seq<AtlasTile>, tile_size: int, gx: int, gy: int) -> u32
    decreases tiles.len(),
{
    if tiles.len() == 0 {
        0
    } else {
        let t = tiles.last();
        if t.id > 0 && t.x as int / tile_size == gx && MAX_TILE_Y as int - (t.y as int / tile_size)
            - 1 == gy {
            t.id
        } else {
            placed_id(tiles.drop_last(), tile_size, gx, gy)
        }
    }
}

/// The tileset panel: the atlas rendered as a tile grid, the index of the
/// source atlas it shows, and the current rectangular selection.
pub struct Tileset {
    pub map: TileGrid,
    pub selected_tile: usize,
    pub select_start: (u32, u32),
    pub select_size: (u32, u32),
}

impl Tileset {
    /// Shape invariant: a well-formed grid.
    pub open spec fn wf(self) -> bool {
        self.map.wf()
    }

    /// Builds the panel for atlas `0`: each nonzero tile id is placed at
    /// its pixel position divided by `tile_size`, bottom row first, and
    /// the selection starts as the single top-left displayed tile.
    pub fn new(tiles: &Vec<AtlasTile>, tile_size: u32) -> (r: Tileset)
        requires
            atlas_fits(tiles@, tile_size as int),
        ensures
            r.wf(),
            r.selected_tile == 0,
            r.select_start == (0u32, (MAX_TILE_Y - 1) as u32),
            r.select_size == (1u32, 1u32),
            forall|gx: int, gy: int|
                0 <= gx < MAX_TILE_X && 0 <= gy < MAX_TILE_Y ==> #[trigger] r.map.cell(gx, gy, 0)
                    == cell_of_id(placed_id(tiles@, tile_size as int, gx, gy)),
            forall|gx: int, gy: int, l: int|
                0 <= gx < 32 && 0 <= gy < 32 && 0 <= l < 8 && !(gx < MAX_TILE_X && gy < MAX_TILE_Y
                    && l == 0) ==> #[trigger] r.map.cell(gx, gy, l) == empty_tile(),
    {
        let mut map = TileGrid::new();
        place_atlas(&mut map, tiles, tile_size);
        Tileset {
            map,
            selected_tile: 0,
            select_start: (0, MAX_TILE_Y - 1),
            select_size: (1, 1),
        }
    }

    /// Normalizes two selection corners into the component-wise smallest
    /// start and an inclusive size (at least 1x1 on each axis), stores
    /// them, and returns the size.
    pub fn set_selection(&mut self, start: (u32, u32), end: (u32, u32)) -> (r: (u32, u32))
        requires
            old(self).wf(),
            start.0 < MAX_TILE_X,
            end.0 < MAX_TILE_X,
            start.1 < MAX_TILE_Y,
            end.1 < MAX_TILE_Y,
        ensures
            final(self).wf(),
            final(self).select_start.0 == if start.0 <= end.0 {
                start.0
            } else {
                end.0
            },
            final(self).select_start.1 == if start.1 <= end.1 {
                start.1
            } else {
                end.1
            },
            final(self).select_size.0 == (if start.0 <= end.0 {
                end.0 - start.0
            } else {
                start.0 - end.0
            }) + 1,
            final(self).select_size.1 == (if start.1 <= end.1 {
                end.1 - start.1
            } else {
                start.1 - end.1
            }) + 1,
            r == final(self).select_size,
            final(self).map == old(self).map,
            final(self).selected_tile == old(self).selected_tile,
    {
        let sx: u32 = if start.0 > end.0 {
            end.0
        } else {
            start.0
        };
        let sy: u32 = if start.1 > end.1 {
            end.1
        } else {
            start.1
        };
        let ex: u32 = if start.0 > end.0 {
            start.0
        } else {
            end.0
        };
        let ey: u32 = if start.1 > end.1 {
            start.1
        } else {
            end.1
        };
        self.select_start = (sx, sy);
        self.select_size = (ex - sx + 1, ey - sy + 1);
        self.select_size
    }

    /// Switches the panel to another source atlas: a no-op when it is
    /// already shown, otherwise the displayed grid region is cleared and
    /// refilled from the new atlas; the selection is kept.
    pub fn change_tileset(&mut self, tiles: &Vec<AtlasTile>, tile_size: u32, tileset_index: usize)
        requires
            old(self).wf(),
            atlas_fits(tiles@, tile_size as int),
        ensures
            final(self).wf(),
            old(self).selected_tile == tileset_index ==> *final(self) == *old(self),
            old(self).selected_tile != tileset_index ==> {
                &&& final(self).selected_tile == tileset_index
                &&& forall|gx: int, gy: int|
                    0 <= gx < MAX_TILE_X && 0 <= gy < MAX_TILE_Y
                        ==> #[trigger] final(self).map.cell(gx, gy, 0) == cell_of_id(
                        placed_id(tiles@, tile_size as int, gx, gy),
                    )
                &&& forall|gx: int, gy: int, l: int|
                    0 <= gx < 32 && 0 <= gy < 32 && 0 <= l < 8 && !(gx < MAX_TILE_X && gy
                        < MAX_TILE_Y && l == 0) ==> #[trigger] final(self).map.cell(gx, gy, l)
                        == old(self).map.cell(gx, gy, l)
                &&& final(self).select_start == old(self).select_start
                &&& final(self).select_size == old(self).select_size
            },
    {
        if self.selected_tile == tileset_index {
            return ;
        }
        self.selected_tile = tileset_index;
        let mut gx: u32 = 0;
        while gx < MAX_TILE_X
            invariant
                self.map.wf(),
                0 <= gx <= MAX_TILE_X,
                forall|x2: int, y2: int, l2: int|
                    0 <= x2 < 32 && 0 <= y2 < 32 && 0 <= l2 < 8 ==> #[trigger] self.map.cell(
                        x2,
                        y2,
                        l2,
                    ) == (if x2 < gx && y2 < MAX_TILE_Y && l2 == 0 {
                        empty_tile()
                    } else {
                        old(self).map.cell(x2, y2, l2)
                    }),
                self.selected_tile == tileset_index,
                self.select_start == old(self).select_start,
                self.select_size == old(self).select_size,
            decreases MAX_TILE_X - gx,
        {
            let mut gy: u32 = 0;
            while gy < MAX_TILE_Y
                invariant
                    self.map.wf(),
                    0 <= gx < MAX_TILE_X,
                    0 <= gy <= MAX_TILE_Y,
                    forall|x2: int, y2: int, l2: int|
                        0 <= x2 < 32 && 0 <= y2 < 32 && 0 <= l2 < 8 ==> #[trigger] self.map.cell(
                            x2,
                            y2,
                            l2,
                        ) == (if (x2 < gx || (x2 == gx && y2 < gy)) && y2 < MAX_TILE_Y && l2 == 0 {
                            empty_tile()
                        } else {
                            old(self).map.cell(x2, y2, l2)
                        }),
                    self.selected_tile == tileset_index,
                    self.select_start == old(self).select_start,
                    self.select_size == old(self).select_size,
                decreases MAX_TILE_Y - gy,
            {
                self.map.set_tile(
                    (gx, gy, 0),
                    TileData {
                        texture_id: 0,
                        texture_layer: 0,
                        color: crate::map::Rgba { r: 0, g: 0, b: 0, a: 0 },
                    },
                );
                gy = gy + 1;
            }
            gx = gx + 1;
        }
        let ghost cleared = self.map;
        place_atlas(&mut self.map, tiles, tile_size);
        proof {
            assert(forall|gx: int, gy: int|
                0 <= gx < MAX_TILE_X && 0 <= gy < MAX_TILE_Y ==> #[trigger] cleared.cell(gx, gy, 0)
                    == empty_tile());
        }
    }
}

/// Places every nonzero atlas tile into the grid region it maps to; cells
/// of the region that no tile maps to keep their value, and the id shown
/// in a cell where the region started empty is exactly `placed_id`.
fn place_atlas(map: &mut TileGrid, tiles: &Vec<AtlasTile>, tile_size: u32)
    requires
        old(map).wf(),
        atlas_fits(tiles@, tile_size as int),
    ensures
        final(map).wf(),
        forall|gx: int, gy: int|
            0 <= gx < MAX_TILE_X && 0 <= gy < MAX_TILE_Y ==> #[trigger] final(map).cell(gx, gy, 0)
                == (if placed_id(tiles@, tile_size as int, gx, gy) > 0 {
                cell_of_id(placed_id(tiles@, tile_size as int, gx, gy))
            } else {
                old(map).cell(gx, gy, 0)
            }),
        forall|gx: int, gy: int, l: int|
            0 <= gx < 32 && 0 <= gy < 32 && 0 <= l < 8 && !(gx < MAX_TILE_X && gy < MAX_TILE_Y && l
                == 0) ==> #[trigger] final(map).cell(gx, gy, l) == old(map).cell(gx, gy, l),
{
    let mut i: usize = 0;
    while i < tiles.len()
        invariant
            map.wf(),
            atlas_fits(tiles@, tile_size as int),
            0 <= i <= tiles@.len(),
            forall|gx: int, gy: int|
                0 <= gx < MAX_TILE_X && 0 <= gy < MAX_TILE_Y ==> #[trigger] map.cell(gx, gy, 0)
                    == (if placed_id(tiles@.subrange(0, i as int), tile_size as int, gx, gy) > 0 {
                    cell_of_id(placed_id(tiles@.subrange(0, i as int), tile_size as int, gx, gy))
                } else {
                    old(map).cell(gx, gy, 0)
                }),
            forall|gx: int, gy: int, l: int|
                0 <= gx < 32 && 0 <= gy < 32 && 0 <= l < 8 && !(gx < MAX_TILE_X && gy < MAX_TILE_Y
                    && l == 0) ==> #[trigger] map.cell(gx, gy, l) == old(map).cell(gx, gy, l),
        decreases tiles@.len() - i,
    {
        let t = tiles[i];
        let ghost done = tiles@.subrange(0, i as int);
        proof {
            assert(tiles@.subrange(0, i as int + 1).drop_last() =~= done);
            assert(tiles@.subrange(0, i as int + 1).last() == tiles@[i as int]);
        }
        if t.id > 0 {
            let gx = t.x / tile_size;
            let gy = MAX_TILE_Y - (t.y / tile_size) - 1;
            place_tile(map, gx, gy, t.id);
        }
        i = i + 1;
    }
    proof {
        assert(tiles@.subrange(0, tiles@.len() as int) =~= tiles@);
    }
}

/// Writes one placed tile id into the grid.
fn place_tile(map: &mut TileGrid, gx: u32, gy: u32, id: u32)
    requires
        old(map).wf(),
        gx < 32,
        gy < 32,
        id > 0,
    ensures
        final(map).wf(),
        final(map).cell(gx as int, gy as int, 0) == cell_of_id(id),
        forall|x2: int, y2: int, l2: int|
            0 <= x2 < 32 && 0 <= y2 < 32 && 0 <= l2 < 8 && !(x2 == gx as int && y2 == gy as int
                && l2 == 0) ==> #[trigger] final(map).cell(x2, y2, l2) == old(map).cell(x2, y2, l2),
{
    map.set_tile(
        (gx, gy, 0),
        TileData {
            texture_id: id,
            texture_layer: 0,
            color: crate::map::Rgba { r: 255, g: 255, b: 255, a: 255 },
        },
    );
}

} // verus!
