//! The nine-slot render neighborhood: one full center grid plus eight
//! border-band previews of the neighboring chunks, the paint operation
//! that stamps a tileset selection onto the center, and the hover state
//! for the selection preview and the linked-map overlays.

use vstd::prelude::*;

verus! {

/// An RGBA color with 8-bit channels.
#[derive(Clone, Copy, PartialEq, Eq, Structural, Debug)]
pub struct Rgba {
    pub r: u8,
    pub g: u8,
    pub b: u8,
    pub a: u8,
}

/// One cell of a render grid; `texture_id == 0` means empty.
#[derive(Clone, Copy, PartialEq, Eq, Structural, Debug)]
pub struct TileData {
    pub texture_id: u32,
    pub texture_layer: u32,
    pub color: Rgba,
}

/// The empty cell.
pub open spec fn empty_tile() -> TileData {
    TileData { texture_id: 0, texture_layer: 0, color: Rgba { r: 0, g: 0, b: 0, a: 0 } }
}

/// The opaque white tint used for tiles copied out of chunk data.
pub open spec fn white() -> Rgba {
    Rgba { r: 255, g: 255, b: 255, a: 255 }
}

/// A 32x32, 8-layer tile grid, flat in row-major order with layers stacked
/// (`index = layer * 1024 + x + y * 32`).
pub struct TileGrid {
    pub tiles: Vec<TileData>,
}

impl TileGrid {
    /// Shape invariant: exactly `8 * 1024` cells.
    pub open spec fn wf(self) -> bool {
        self.tiles@.len() == 8192
    }

    /// The cell at `(x, y)` on `layer`.
    pub open spec fn cell(self, x: int, y: int, layer: int) -> TileData {
        self.tiles@[layer * 1024 + x + y * 32]
    }

    /// A grid of empty cells.
    pub fn new() -> (r: TileGrid)
        ensures
            r.wf(),
            forall|x: int, y: int, l: int|
                0 <= x < 32 && 0 <= y < 32 && 0 <= l < 8 ==> #[trigger] r.cell(x, y, l)
                    == empty_tile(),
    {
        let mut tiles: Vec<TileData> = Vec::new();
        while tiles.len() < 8192
            invariant
                tiles@.len() <= 8192,
                forall|i: int| 0 <= i < tiles@.len() ==> #[trigger] tiles@[i] == empty_tile(),
            decreases 8192 - tiles.len(),
        {
            tiles.push(TileData { texture_id: 0, texture_layer: 0, color: Rgba { r: 0, g: 0, b: 0, a: 0 } });
        }
        TileGrid { tiles }
    }

    /// Empties every cell.
    pub fn clear(&mut self)
        ensures
            final(self).wf(),
            forall|x: int, y: int, l: int|
                0 <= x < 32 && 0 <= y < 32 && 0 <= l < 8 ==> #[trigger] final(self).cell(x, y, l)
                    == empty_tile(),
    {
        let fresh = TileGrid::new();
        *self = fresh;
    }

    /// Reads the cell at `pos = (x, y, layer)`.
    pub fn get_tile(&self, pos: (u32, u32, u32)) -> (r: TileData)
        requires
            self.wf(),
            pos.0 < 32,
            pos.1 < 32,
            pos.2 < 8,
        ensures
            r == self.cell(pos.0 as int, pos.1 as int, pos.2 as int),
    {
        let idx: usize = (pos.2 as usize) * 1024 + (pos.0 as usize) + (pos.1 as usize) * 32;
        self.tiles[idx]
    }

    /// Writes the cell at `pos = (x, y, layer)`; every other cell keeps
    /// its value.
    #[verifier::rlimit(40)]
    pub fn set_tile(&mut self, pos: (u32, u32, u32), tile: TileData)
        requires
            old(self).wf(),
            pos.0 < 32,
            pos.1 < 32,
            pos.2 < 8,
        ensures
            final(self).wf(),
            final(self).cell(pos.0 as int, pos.1 as int, pos.2 as int) == tile,
            forall|x: int, y: int, l: int|
                0 <= x < 32 && 0 <= y < 32 && 0 <= l < 8 && !(x == pos.0 as int && y == pos.1 as int
                    && l == pos.2 as int) ==> #[trigger] final(self).cell(x, y, l) == old(
                    self,
                ).cell(x, y, l),
    {
        let idx: usize = (pos.2 as usize) * 1024 + (pos.0 as usize) + (pos.1 as usize) * 32;
        self.tiles[idx] = tile;
        proof {
            assert forall|x: int, y: int, l: int|
                0 <= x < 32 && 0 <= y < 32 && 0 <= l < 8 && !(x == pos.0 as int && y == pos.1 as int
                    && l == pos.2 as int) implies #[trigger] self.cell(x, y, l) == old(self).cell(
                x,
                y,
                l,
            ) by {
                assert(l * 1024 + x + y * 32 != idx);
            }
        }
    }
}

/// A screen-space rectangle in pixels.
#[derive(Clone, Copy, PartialEq, Eq, Structural, Debug)]
pub struct Rect {
    pub x: u32,
    pub y: u32,
    pub w: u32,
    pub h: u32,
}

/// Whether a point lies in `r` (edges included).
pub open spec fn in_rect(px: int, py: int, r: Rect) -> bool {
    r.x <= px <= r.x + r.w && r.y <= py <= r.y + r.h
}

/// Hover overlay over one linked-map slot.
#[derive(Clone, Copy, PartialEq, Eq, Structural, Debug)]
pub struct LinkOverlay {
    pub area: Rect,
    pub hovered: bool,
    pub changed: bool,
}

/// The size that the selection preview actually shows: clamped so that it
/// never runs past the 32-tile map edge.
pub open spec fn clamped_span(pos: int, size: int) -> int {
    if pos + size > 32 {
        32 - pos
    } else {
        size
    }
}

/// The nine render grids (index 0 is the center chunk, 1 through 8 the
/// border bands of its compass neighbors), the linked-map hover overlays,
/// and the selection preview state in tile units.
pub struct MapView {
    pub maps: Vec<TileGrid>,
    pub link_map_selection: Vec<LinkOverlay>,
    pub preview_pos: (u32, u32),
    pub preview_size: (u32, u32),
    pub preview_area: (u32, u32),
    pub preview_changed: bool,
}

impl MapView {
    /// Shape invariant: nine well-formed grids, eight overlays, and a
    /// preview origin inside the map.
    pub open spec fn wf(self) -> bool {
        &&& self.maps@.len() == 9
        &&& forall|s: int| 0 <= s < 9 ==> (#[trigger] self.maps@[s]).wf()
        &&& self.link_map_selection@.len() == 8
        &&& self.preview_pos.0 < 32 && self.preview_pos.1 < 32
    }

    /// A fresh view: empty grids, unhovered overlays over the given
    /// screen areas, and a 1x1 preview at the origin.
    pub fn new(link_areas: &Vec<Rect>) -> (r: MapView)
        requires
            link_areas@.len() == 8,
        ensures
            r.wf(),
            forall|s: int, x: int, y: int, l: int|
                0 <= s < 9 && 0 <= x < 32 && 0 <= y < 32 && 0 <= l < 8 ==> #[trigger] r.maps@[s].cell(
                    x,
                    y,
                    l,
                ) == empty_tile(),
            forall|i: int|
                0 <= i < 8 ==> (#[trigger] r.link_map_selection@[i]) == (LinkOverlay {
                    area: link_areas@[i],
                    hovered: false,
                    changed: false,
                }),
            r.preview_pos == (0u32, 0u32),
            r.preview_size == (1u32, 1u32),
            r.preview_area == (1u32, 1u32),
            !r.preview_changed,
    {
        let mut maps: Vec<TileGrid> = Vec::new();
        while maps.len() < 9
            invariant
                maps@.len() <= 9,
                forall|s: int| 0 <= s < maps@.len() ==> (#[trigger] maps@[s]).wf(),
                forall|s: int, x: int, y: int, l: int|
                    0 <= s < maps@.len() && 0 <= x < 32 && 0 <= y < 32 && 0 <= l < 8
                        ==> #[trigger] maps@[s].cell(x, y, l) == empty_tile(),
            decreases 9 - maps.len(),
        {
            maps.push(TileGrid::new());
        }
        let mut link_map_selection: Vec<LinkOverlay> = Vec::new();
        let mut i: usize = 0;
        while i < 8
            invariant
                link_areas@.len() == 8,
                link_map_selection@.len() == i,
                0 <= i <= 8,
                forall|j: int|
                    0 <= j < i ==> (#[trigger] link_map_selection@[j]) == (LinkOverlay {
                        area: link_areas@[j],
                        hovered: false,
                        changed: false,
                    }),
            decreases 8 - i,
        {
            link_map_selection.push(
                LinkOverlay { area: link_areas[i], hovered: false, changed: false },
            );
            i = i + 1;
        }
        MapView {
            maps,
            link_map_selection,
            preview_pos: (0, 0),
            preview_size: (1, 1),
            preview_area: (1, 1),
            preview_changed: false,
        }
    }

    /// Empties one of the nine grids.
    pub fn clear_map(&mut self, index: usize)
        requires
            old(self).wf(),
            index < 9,
        ensures
            final(self).wf(),
            forall|x: int, y: int, l: int|
                0 <= x < 32 && 0 <= y < 32 && 0 <= l < 8 ==> (#[trigger] final(self).maps@[
                index as int].cell(x, y, l)) == empty_tile(),
            forall|s: int|
                0 <= s < 9 && s != index as int ==> #[trigger] final(self).maps@[s] == old(
                    self,
                ).maps@[s],
            final(self).link_map_selection == old(self).link_map_selection,
            final(self).preview_pos == old(self).preview_pos,
            final(self).preview_size == old(self).preview_size,
            final(self).preview_area == old(self).preview_area,
            final(self).preview_changed == old(self).preview_changed,
    {
        self.maps[index].clear();
    }

    /// Toggles the hover highlight of each linked-map overlay according to
    /// whether the pointer is inside its screen area; `changed` records
    /// any flip for the rendering collaborator.
    pub fn hover_linked_selection(&mut self, pos: (u32, u32))
        requires
            old(self).wf(),
        ensures
            final(self).wf(),
            forall|i: int|
                0 <= i < 8 ==> {
                    let o = old(self).link_map_selection@[i];
                    (#[trigger] final(self).link_map_selection@[i]) == (LinkOverlay {
                        area: o.area,
                        hovered: in_rect(pos.0 as int, pos.1 as int, o.area),
                        changed: o.changed || (o.hovered != in_rect(pos.0 as int, pos.1 as int, o.area)),
                    })
                },
            final(self).maps == old(self).maps,
            final(self).preview_pos == old(self).preview_pos,
            final(self).preview_size == old(self).preview_size,
            final(self).preview_area == old(self).preview_area,
            final(self).preview_changed == old(self).preview_changed,
    {
        let mut i: usize = 0;
        while i < 8
            invariant
                self.wf(),
                self.link_map_selection@.len() == 8,
                0 <= i <= 8,
                forall|j: int|
                    i <= j < 8 ==> #[trigger] self.link_map_selection@[j] == old(
                        self,
                    ).link_map_selection@[j],
                forall|j: int|
                    0 <= j < i ==> {
                        let o = old(self).link_map_selection@[j];
                        (#[trigger] self.link_map_selection@[j]) == (LinkOverlay {
                            area: o.area,
                            hovered: in_rect(pos.0 as int, pos.1 as int, o.area),
                            changed: o.changed || (o.hovered != in_rect(
                                pos.0 as int,
                                pos.1 as int,
                                o.area,
                            )),
                        })
                    },
                self.maps == old(self).maps,
                self.preview_pos == old(self).preview_pos,
                self.preview_size == old(self).preview_size,
                self.preview_area == old(self).preview_area,
                self.preview_changed == old(self).preview_changed,
            decreases 8 - i,
        {
            let o = self.link_map_selection[i];
            let inside = pos.0 as u64 >= o.area.x as u64 && pos.0 as u64 <= o.area.x as u64
                + o.area.w as u64 && pos.1 as u64 >= o.area.y as u64 && pos.1 as u64 <= o.area.y
                as u64 + o.area.h as u64;
            proof {
                assert(inside == in_rect(pos.0 as int, pos.1 as int, o.area));
            }
            let changed = o.changed || (o.hovered != inside);
            self.link_map_selection[i] = LinkOverlay { area: o.area, hovered: inside, changed };
            i = i + 1;
        }
    }

    /// Stamps the tileset selection block at `start_pos .. start_pos +
    /// selection_size` onto the center grid at `set_pos`, on one layer.
    /// Empty source cells never overwrite, and cells that would land
    /// outside the 32x32 map are dropped.  A selection whose source block
    /// is entirely empty leaves the view unchanged.
    pub fn set_tile_group(
        &mut self,
        set_pos: (u32, u32),
        layer: u32,
        tileset: &TileGrid,
        start_pos: (u32, u32),
        selection_size: (u32, u32),
    )
        requires
            old(self).wf(),
            tileset.wf(),
            layer < 8,
            start_pos.0 + selection_size.0 <= 32,
            start_pos.1 + selection_size.1 <= 32,
        ensures
            final(self).wf(),
            forall|x: int, y: int, l: int|
                0 <= x < 32 && 0 <= y < 32 && 0 <= l < 8 ==> (#[trigger] final(self).maps@[0].cell(
                    x,
                    y,
                    l,
                )) == (if l == layer as int && set_pos.0 <= x < set_pos.0 + selection_size.0
                    && set_pos.1 <= y < set_pos.1 + selection_size.1 && tileset.cell(
                    start_pos.0 + (x - set_pos.0),
                    start_pos.1 + (y - set_pos.1),
                    layer as int,
                ).texture_id > 0 {
                    tileset.cell(
                        start_pos.0 + (x - set_pos.0),
                        start_pos.1 + (y - set_pos.1),
                        layer as int,
                    )
                } else {
                    old(self).maps@[0].cell(x, y, l)
                }),
            forall|s: int|
                1 <= s < 9 ==> #[trigger] final(self).maps@[s] == old(self).maps@[s],
            final(self).link_map_selection == old(self).link_map_selection,
            final(self).preview_pos == old(self).preview_pos,
            final(self).preview_size == old(self).preview_size,
            final(self).preview_area == old(self).preview_area,
            final(self).preview_changed == old(self).preview_changed,
            (forall|dx: int, dy: int|
                0 <= dx < selection_size.0 && 0 <= dy < selection_size.1 ==> (#[trigger] tileset.cell(
                    start_pos.0 + dx,
                    start_pos.1 + dy,
                    layer as int,
                )).texture_id == 0) ==> forall|x: int, y: int, l: int|
                0 <= x < 32 && 0 <= y < 32 && 0 <= l < 8 ==> #[trigger] final(self).maps@[0].cell(
                    x,
                    y,
                    l,
                ) == old(self).maps@[0].cell(x, y, l),
    {
        let mut dx: u32 = 0;
        while dx < selection_size.0
            invariant
                self.wf(),
                tileset.wf(),
                layer < 8,
                start_pos.0 + selection_size.0 <= 32,
                start_pos.1 + selection_size.1 <= 32,
                0 <= dx <= selection_size.0,
                forall|x: int, y: int, l: int|
                    0 <= x < 32 && 0 <= y < 32 && 0 <= l < 8 ==> (#[trigger] self.maps@[0].cell(
                        x,
                        y,
                        l,
                    )) == (if l == layer as int && set_pos.0 <= x < set_pos.0 + dx && set_pos.1 <= y
                        < set_pos.1 + selection_size.1 && tileset.cell(
                        start_pos.0 + (x - set_pos.0),
                        start_pos.1 + (y - set_pos.1),
                        layer as int,
                    ).texture_id > 0 {
                        tileset.cell(
                            start_pos.0 + (x - set_pos.0),
                            start_pos.1 + (y - set_pos.1),
                            layer as int,
                        )
                    } else {
                        old(self).maps@[0].cell(x, y, l)
                    }),
                forall|s: int|
                    1 <= s < 9 ==> #[trigger] self.maps@[s] == old(self).maps@[s],
                self.link_map_selection == old(self).link_map_selection,
                self.preview_pos == old(self).preview_pos,
                self.preview_size == old(self).preview_size,
                self.preview_area == old(self).preview_area,
                self.preview_changed == old(self).preview_changed,
            decreases selection_size.0 - dx,
        {
            let mut dy: u32 = 0;
            while dy < selection_size.1
                invariant
                    self.wf(),
                    tileset.wf(),
                    layer < 8,
                    start_pos.0 + selection_size.0 <= 32,
                    start_pos.1 + selection_size.1 <= 32,
                    0 <= dx < selection_size.0,
                    0 <= dy <= selection_size.1,
                    forall|x: int, y: int, l: int|
                        0 <= x < 32 && 0 <= y < 32 && 0 <= l < 8 ==> (#[trigger] self.maps@[0].cell(
                            x,
                            y,
                            l,
                        )) == (if l == layer as int && set_pos.1 <= y < set_pos.1
                            + selection_size.1 && ((set_pos.0 <= x < set_pos.0 + dx) || (x
                            == set_pos.0 + dx && set_pos.1 <= y < set_pos.1 + dy)) && tileset.cell(
                            start_pos.0 + (x - set_pos.0),
                            start_pos.1 + (y - set_pos.1),
                            layer as int,
                        ).texture_id > 0 {
                            tileset.cell(
                                start_pos.0 + (x - set_pos.0),
                                start_pos.1 + (y - set_pos.1),
                                layer as int,
                            )
                        } else {
                            old(self).maps@[0].cell(x, y, l)
                        }),
                    forall|s: int|
                        1 <= s < 9 ==> #[trigger] self.maps@[s] == old(self).maps@[s],
                    self.link_map_selection == old(self).link_map_selection,
                    self.preview_pos == old(self).preview_pos,
                    self.preview_size == old(self).preview_size,
                    self.preview_area == old(self).preview_area,
                    self.preview_changed == old(self).preview_changed,
                decreases selection_size.1 - dy,
            {
                let tiledata = tileset.get_tile((start_pos.0 + dx, start_pos.1 + dy, layer));
                if tiledata.texture_id > 0 {
                    if (set_pos.0 as u64 + dx as u64) < 32 && (set_pos.1 as u64 + dy as u64) < 32 {
                        self.maps[0].set_tile((set_pos.0 + dx, set_pos.1 + dy, layer), tiledata);
                    }
                }
                dy = dy + 1;
            }
            dx = dx + 1;
        }
    }

    /// Moves the selection preview to `set_pos` if it is inside the map
    /// and actually different; the shown span is re-clamped to the map
    /// edge.  Anything else is a no-op.
    pub fn hover_selection_preview(&mut self, set_pos: (u32, u32))
        requires
            old(self).wf(),
        ensures
            final(self).wf(),
            old(self).preview_pos != set_pos && set_pos.0 < 32 && set_pos.1 < 32 ==> {
                &&& final(self).preview_pos == set_pos
                &&& final(self).preview_area.0 == clamped_span(
                    set_pos.0 as int,
                    old(self).preview_size.0 as int,
                )
                &&& final(self).preview_area.1 == clamped_span(
                    set_pos.1 as int,
                    old(self).preview_size.1 as int,
                )
                &&& final(self).preview_changed
            },
            !(old(self).preview_pos != set_pos && set_pos.0 < 32 && set_pos.1 < 32)
                ==> *final(self) == *old(self),
            final(self).preview_size == old(self).preview_size,
            final(self).maps == old(self).maps,
            final(self).link_map_selection == old(self).link_map_selection,
    {
        if (self.preview_pos.0 != set_pos.0 || self.preview_pos.1 != set_pos.1) && set_pos.0 < 32
            && set_pos.1 < 32 {
            self.preview_pos = set_pos;
            self.adjust_selection_preview();
            self.preview_changed = true;
        }
    }

    /// Resizes the selection preview; the shown span is re-clamped to the
    /// map edge.
    pub fn change_selection_preview_size(&mut self, size: (u32, u32))
        requires
            old(self).wf(),
        ensures
            final(self).wf(),
            final(self).preview_size == size,
            final(self).preview_pos == old(self).preview_pos,
            final(self).preview_area.0 == clamped_span(
                old(self).preview_pos.0 as int,
                size.0 as int,
            ),
            final(self).preview_area.1 == clamped_span(
                old(self).preview_pos.1 as int,
                size.1 as int,
            ),
            final(self).preview_changed,
            final(self).maps == old(self).maps,
            final(self).link_map_selection == old(self).link_map_selection,
    {
        self.preview_size = size;
        self.adjust_selection_preview();
        self.preview_changed = true;
    }

    /// Clamps the shown preview span so it never runs past the map edge.
    fn adjust_selection_preview(&mut self)
        requires
            old(self).wf(),
        ensures
            final(self).wf(),
            final(self).preview_area.0 == clamped_span(
                old(self).preview_pos.0 as int,
                old(self).preview_size.0 as int,
            ),
            final(self).preview_area.1 == clamped_span(
                old(self).preview_pos.1 as int,
                old(self).preview_size.1 as int,
            ),
            final(self).preview_pos == old(self).preview_pos,
            final(self).preview_size == old(self).preview_size,
            final(self).preview_changed == old(self).preview_changed,
            final(self).maps == old(self).maps,
            final(self).link_map_selection == old(self).link_map_selection,
    {
        let wx: u64 = self.preview_pos.0 as u64 + self.preview_size.0 as u64;
        let wy: u64 = self.preview_pos.1 as u64 + self.preview_size.1 as u64;
        let ax: u32 = if wx > 32 {
            32 - self.preview_pos.0
        } else {
            self.preview_size.0
        };
        let ay: u32 = if wy > 32 {
            32 - self.preview_pos.1
        } else {
            self.preview_size.1
        };
        self.preview_area = (ax, ay);
    }
}

} // verus!
