//! The chunk cache, the nine-slot render view, and tileset selection.

use mapeditor::coord::{convert_to_dir, Direction};
use mapeditor::map::{MapView, Rect, Rgba, TileData, TileGrid};
use mapeditor::map_data::{get_tile_pos, is_map_exist, EditorData, MapData, MapError};
use mapeditor::store::FileStore;
use mapeditor::tileset::{AtlasTile, Tileset};

fn link_areas() -> Vec<Rect> {
    (0u32..8).map(|i| Rect { x: 100 * i, y: 0, w: 40, h: 40 }).collect()
}

fn white_tile(id: u32) -> TileData {
    TileData { texture_id: id, texture_layer: 0, color: Rgba { r: 255, g: 255, b: 255, a: 255 } }
}

fn source_with(id: u32) -> TileGrid {
    let mut g = TileGrid::new();
    g.set_tile((0, 0, 0), white_tile(id));
    g
}

#[test]
fn session_starts_at_origin() {
    let mut store = FileStore::new();
    let ed = EditorData::new(&mut store);
    assert_eq!((ed.x, ed.y, ed.group), (0, 0, 0));
    assert_eq!(ed.current_index, "0_0_0");
    assert_eq!(ed.maps.len(), 1);
    assert!(is_map_exist(&store, 0, 0, 0));
}

#[test]
fn moving_away_evicts_clean_chunks() {
    let mut store = FileStore::new();
    let mut ed = EditorData::new(&mut store);
    let displaced = ed.move_map(Direction::East, &mut store).unwrap();
    assert_eq!(displaced, None);
    assert!(ed.maps.iter().all(|e| e.key != "0_0_0"));
    assert_eq!((ed.x, ed.y), (1, 0));
    assert_eq!(ed.current_index, "1_0_0");
}

#[test]
fn moving_away_keeps_dirty_chunks() {
    let mut store = FileStore::new();
    let mut ed = EditorData::new(&mut store);
    assert!(ed.set_map_change());
    let displaced = ed.move_map(Direction::North, &mut store).unwrap();
    assert_eq!(displaced, Some("0_0_0".to_string()));
    assert!(ed.maps.iter().any(|e| e.key == "0_0_0" && e.dirty));
    assert!(ed.did_change(0, 0, 0));
    assert!(!ed.did_change(0, 1, 0));
}

#[test]
fn moving_off_the_coordinate_space_is_an_error() {
    let mut store = FileStore::new();
    let mut ed = EditorData::new(&mut store);
    ed.init_map(i32::MAX, 0, 1, &mut store);
    let r = ed.move_map(Direction::East, &mut store);
    assert!(matches!(r, Err(MapError::OutOfRange)));
    assert_eq!((ed.x, ed.y, ed.group), (i32::MAX, 0, 1));
}

#[test]
fn direction_indices_match_buttons() {
    assert_eq!(convert_to_dir(1), Direction::North);
    assert_eq!(convert_to_dir(4), Direction::East);
    assert_eq!(convert_to_dir(6), Direction::South);
    assert_eq!(convert_to_dir(0), Direction::NorthWest);
    assert_eq!(get_tile_pos(5, 5), 165);
}

#[test]
fn edit_move_save_scenario() {
    let mut store = FileStore::new();
    let mut ed = EditorData::new(&mut store);
    // move east: clean origin is evicted, a default (1,0,0) file appears
    let displaced = ed.move_map(Direction::East, &mut store).unwrap();
    assert_eq!(displaced, None);
    assert_eq!((ed.x, ed.y, ed.group), (1, 0, 0));
    assert!(ed.maps.iter().all(|e| e.key != "0_0_0"));
    assert!(is_map_exist(&store, 1, 0, 0));
    // paint one tile at (5,5) layer 0 on the center grid
    let mut view = MapView::new(&link_areas());
    ed.load_map_data(&mut view);
    let source = source_with(77);
    view.set_tile_group((5, 5), 0, &source, (0, 0), (1, 1));
    assert!(ed.set_map_change());
    assert!(ed.did_change(1, 0, 0));
    // save the active chunk
    ed.save_map_data(&view.maps[0], None, &mut store);
    assert!(!ed.did_change(1, 0, 0));
    let content = store.read_file(1, 0, 0).unwrap().clone();
    let saved = mapeditor::codec::decode_chunk(&content).unwrap();
    assert_eq!(saved.tile[0].id[5 + 5 * 32], 77);
    assert_eq!(saved.tile[0].id.iter().filter(|&&v| v != 0).count(), 1);
}

#[test]
fn save_all_clears_dirty_and_spares_clean_files() {
    let mut store = FileStore::new();
    let mut ed = EditorData::new(&mut store);
    // edit the origin chunk, then move away so it stays cached dirty
    let mut view = MapView::new(&link_areas());
    ed.load_map_data(&mut view);
    let source = source_with(9);
    view.set_tile_group((0, 0), 0, &source, (0, 0), (1, 1));
    ed.set_map_change();
    let displaced = ed.move_map(Direction::East, &mut store).unwrap();
    assert_eq!(displaced, Some("0_0_0".to_string()));
    // copy the edited grid back into the displaced chunk without saving
    ed.save_map_data(&view.maps[0], displaced, &mut store);
    assert!(ed.did_change(0, 0, 0));
    let clean_before = store.read_file(1, 0, 0).unwrap().clone();
    ed.save_all_maps(&mut store);
    // every dirty flag is cleared
    assert!(ed.maps.iter().all(|e| !e.dirty));
    assert!(!ed.did_change(0, 0, 0));
    let mut probe = ed;
    assert!(!probe.got_changes());
    // the dirty chunk was written, the clean chunk's file is untouched
    let dirty_after = store.read_file(0, 0, 0).unwrap().clone();
    let saved = mapeditor::codec::decode_chunk(&dirty_after).unwrap();
    assert_eq!(saved.tile[0].id[0], 9);
    assert_eq!(store.read_file(1, 0, 0).unwrap(), &clean_before);
}

#[test]
fn painting_empty_source_changes_nothing() {
    let mut view = MapView::new(&link_areas());
    let mut seeded = source_with(5);
    seeded.set_tile((1, 1, 0), white_tile(6));
    view.set_tile_group((10, 10), 0, &seeded, (0, 0), (2, 2));
    let before: Vec<TileData> = (0u32..32)
        .flat_map(|x| (0u32..32).map(move |y| (x, y)))
        .map(|(x, y)| view.maps[0].get_tile((x, y, 0)))
        .collect();
    // a source region that holds only empty cells
    let empty = TileGrid::new();
    view.set_tile_group((10, 10), 0, &empty, (0, 0), (4, 4));
    let after: Vec<TileData> = (0u32..32)
        .flat_map(|x| (0u32..32).map(move |y| (x, y)))
        .map(|(x, y)| view.maps[0].get_tile((x, y, 0)))
        .collect();
    assert_eq!(before, after);
    assert_eq!(view.maps[0].get_tile((10, 10, 0)), white_tile(5));
    assert_eq!(view.maps[0].get_tile((11, 11, 0)), white_tile(6));
}

#[test]
fn painting_drops_cells_outside_the_map() {
    let mut view = MapView::new(&link_areas());
    let mut source = source_with(3);
    source.set_tile((1, 0, 0), white_tile(4));
    view.set_tile_group((31, 31), 0, &source, (0, 0), (2, 1));
    assert_eq!(view.maps[0].get_tile((31, 31, 0)).texture_id, 3);
    // the cell that would land at x == 32 was silently dropped
    for x in 0u32..32 {
        for y in 0u32..31 {
            assert_eq!(view.maps[0].get_tile((x, y, 0)).texture_id, 0);
        }
    }
}

#[test]
fn linked_maps_show_neighbor_borders() {
    let mut store = FileStore::new();
    // a northern neighbor with one tile inside its southern border band
    let mut north = MapData::default(0, 1, 0);
    north.tile[2].id[3 + 1 * 32] = 55;
    north.tile[2].id[3 + 5 * 32] = 66; // outside the two-row band
    north.save_file(&mut store);
    let mut ed = EditorData::new(&mut store);
    let mut view = MapView::new(&link_areas());
    ed.load_link_maps(&mut view, &mut store);
    // slot 2 is the northern neighbor; its band starts at its row 0
    assert_eq!(view.maps[2].get_tile((3, 1, 2)).texture_id, 55);
    assert_eq!(view.maps[2].get_tile((3, 0, 2)).texture_id, 0);
    // the western neighbor has no file, so its slot stays empty
    for x in 0u32..2 {
        for y in 0u32..32 {
            assert_eq!(view.maps[4].get_tile((x, y, 0)).texture_id, 0);
        }
    }
    // the neighbor is now cached, clean, and no new file appeared
    assert!(ed.maps.iter().any(|e| e.key == "0_1_0" && !e.dirty));
    assert!(!is_map_exist(&store, -1, 0, 0));
}

#[test]
fn hover_preview_clamps_to_the_map_edge() {
    let mut view = MapView::new(&link_areas());
    view.change_selection_preview_size((4, 6));
    view.hover_selection_preview((30, 29));
    assert_eq!(view.preview_pos, (30, 29));
    assert_eq!(view.preview_area, (2, 3));
    assert!(view.preview_changed);
    // positions outside the map are ignored
    view.hover_selection_preview((32, 0));
    assert_eq!(view.preview_pos, (30, 29));
}

#[test]
fn hover_toggles_linked_overlays() {
    let mut view = MapView::new(&link_areas());
    view.hover_linked_selection((120, 10));
    assert!(view.link_map_selection[1].hovered);
    assert!(view.link_map_selection[1].changed);
    assert!(!view.link_map_selection[0].hovered);
    assert!(!view.link_map_selection[0].changed);
    view.hover_linked_selection((0, 500));
    assert!(!view.link_map_selection[1].hovered);
    assert!(view.link_map_selection[1].changed);
}

#[test]
fn selection_normalizes_reversed_corners() {
    let tiles = vec![AtlasTile { id: 1, x: 0, y: 0 }];
    let mut ts = Tileset::new(&tiles, 16);
    let size = ts.set_selection((2, 3), (1, 1));
    assert_eq!(ts.select_start, (1, 1));
    assert_eq!(size, (2, 3));
    assert_eq!(ts.select_size, (2, 3));
}

#[test]
fn tileset_places_tiles_bottom_up() {
    let tiles = vec![
        AtlasTile { id: 10, x: 0, y: 0 },
        AtlasTile { id: 0, x: 16, y: 0 },
        AtlasTile { id: 20, x: 32, y: 16 },
    ];
    let ts = Tileset::new(&tiles, 16);
    // atlas row 0 is the bottom displayed row (row 19)
    assert_eq!(ts.map.get_tile((0, 19, 0)).texture_id, 10);
    assert_eq!(ts.map.get_tile((1, 19, 0)).texture_id, 0);
    assert_eq!(ts.map.get_tile((2, 18, 0)).texture_id, 20);
}

#[test]
fn changing_tileset_replaces_the_grid() {
    let first = vec![AtlasTile { id: 10, x: 0, y: 0 }];
    let second = vec![AtlasTile { id: 30, x: 16, y: 16 }];
    let mut ts = Tileset::new(&first, 16);
    // same index: nothing happens
    ts.change_tileset(&second, 16, 0);
    assert_eq!(ts.map.get_tile((0, 19, 0)).texture_id, 10);
    // a new index clears the grid and re-places
    ts.change_tileset(&second, 16, 1);
    assert_eq!(ts.selected_tile, 1);
    assert_eq!(ts.map.get_tile((0, 19, 0)).texture_id, 0);
    assert_eq!(ts.map.get_tile((1, 18, 0)).texture_id, 30);
}

#[test]
fn moving_back_reuses_the_cached_dirty_chunk() {
    let mut store = FileStore::new();
    let mut ed = EditorData::new(&mut store);
    ed.set_map_change();
    let displaced = ed.move_map(Direction::North, &mut store).unwrap();
    assert_eq!(displaced, Some("0_0_0".to_string()));
    // moving back evicts the clean (0,1,0) chunk and reuses the dirty one
    let displaced = ed.move_map(Direction::South, &mut store).unwrap();
    assert_eq!(displaced, None);
    assert_eq!(ed.current_index, "0_0_0");
    assert!(ed.maps.iter().all(|e| e.key != "0_1_0"));
    assert!(ed.did_change(0, 0, 0));
}

#[test]
fn init_map_jumps_without_evicting() {
    let mut store = FileStore::new();
    let mut ed = EditorData::new(&mut store);
    ed.init_map(5, -5, 2, &mut store);
    assert_eq!(ed.current_index, "5_-5_2");
    assert!(is_map_exist(&store, 5, -5, 2));
    // the origin chunk stays cached, and jumping back reuses it
    assert_eq!(ed.maps.len(), 2);
    ed.init_map(0, 0, 0, &mut store);
    assert_eq!(ed.current_index, "0_0_0");
    assert_eq!(ed.maps.len(), 2);
}
