use slide2d_engine::tilemap::{TileCell, TileLayer, TileLayerKind, TileMap, TileSet};
use std::collections::HashSet;

#[test]
fn tile_layer_can_paint_and_erase() {
    let mut layer = TileLayer::new(TileLayerKind::Ground);
    layer.set_tile(2, 3, 5);
    assert_eq!(layer.tile_at(2, 3), Some(5));
    layer.set_tile(2, 3, 7);
    assert_eq!(layer.tile_at(2, 3), Some(7));
    layer.erase_tile(2, 3);
    assert_eq!(layer.tile_at(2, 3), None);
}

#[test]
fn large_rect_replace_keeps_cells_and_index_consistent() {
    let mut layer = TileLayer::new(TileLayerKind::Ground);
    layer.fill_entire(400, 300, 1);
    layer.replace_rect(100, 50, 299, 249, 7);

    assert_eq!(layer.cells().len(), 120_000);
    assert_eq!(layer.tile_at(99, 50), Some(1));
    assert_eq!(layer.tile_at(100, 50), Some(7));
    assert_eq!(layer.tile_at(299, 249), Some(7));
    assert_eq!(layer.tile_at(300, 249), Some(1));
    let unique: HashSet<_> = layer.cells().iter().map(|cell| (cell.x, cell.y)).collect();
    assert_eq!(unique.len(), layer.cells().len());
}

#[test]
fn large_flood_fill_is_consistent() {
    let mut layer = TileLayer::new(TileLayerKind::Ground);
    layer.fill_entire(100, 100, 2);
    layer.replace_rect(50, 0, 50, 99, 8);
    layer.fill(0, 0, 5);

    assert_eq!(layer.tile_at(49, 99), Some(5));
    assert_eq!(layer.tile_at(50, 99), Some(8));
    assert_eq!(layer.tile_at(51, 99), Some(2));
    assert_eq!(layer.cells().iter().filter(|cell| cell.tile_id == 5).count(), 5_000);
}

#[test]
fn cloned_layer_keeps_its_own_cells() {
    let mut layer = TileLayer::new(TileLayerKind::Decoration);
    layer.fill_entire(128, 128, 3);
    let mut cloned = layer.clone();
    cloned.set_tile(127, 127, 9);
    assert_eq!(cloned.tile_at(127, 127), Some(9));
    assert_eq!(layer.tile_at(127, 127), Some(3));
    cloned.erase_tile(64, 64);
    assert_eq!(cloned.tile_at(64, 64), None);
    assert_eq!(cloned.cells().len(), 128 * 128 - 1);
    assert_eq!(layer.cells().len(), 128 * 128);
}

#[test]
fn layer_rebuilt_from_stored_cells_answers_queries() {
    let cells = vec![
        TileCell { x: 1, y: 1, tile_id: 4 },
        TileCell { x: -2, y: 5, tile_id: 6 },
    ];
    let mut layer = TileLayer::from_cells(TileLayerKind::Collision, false, cells);
    assert_eq!(layer.tile_at(1, 1), Some(4));
    assert_eq!(layer.tile_at(-2, 5), Some(6));
    assert_eq!(layer.tile_at(0, 0), None);
    layer.erase_tile(1, 1);
    assert_eq!(layer.cells().len(), 1);
}

#[test]
fn erase_of_empty_cell_changes_nothing() {
    let mut layer = TileLayer::new(TileLayerKind::Ground);
    layer.set_tile(0, 0, 1);
    layer.erase_tile(5, 5);
    assert_eq!(layer.cells().len(), 1);
    assert_eq!(layer.tile_at(0, 0), Some(1));
}

#[test]
fn flood_fill_with_same_tile_changes_nothing() {
    let mut layer = TileLayer::new(TileLayerKind::Ground);
    layer.fill_entire(10, 10, 2);
    layer.fill(3, 3, 2);
    assert_eq!(layer.cells().len(), 100);
    assert!(layer.cells().iter().all(|cell| cell.tile_id == 2));
}

#[test]
fn flood_fill_of_empty_area_stops_at_the_limit() {
    let mut layer = TileLayer::new(TileLayerKind::Ground);
    layer.fill(0, 0, 1);
    assert_eq!(layer.cells().len(), 10_000);
    assert_eq!(layer.tile_at(0, 0), Some(1));
}

#[test]
fn tile_map_has_three_layers_with_their_kinds() {
    let mut map = TileMap::new();
    assert!(map.layer(TileLayerKind::Ground).is_some());
    assert!(map.layer(TileLayerKind::Decoration).is_some());
    map.layer_mut(TileLayerKind::Collision).unwrap().set_tile(4, 5, 2);
    assert_eq!(map.layer(TileLayerKind::Collision).unwrap().tile_at(4, 5), Some(2));
    assert_eq!(map.layer(TileLayerKind::Ground).unwrap().tile_at(4, 5), None);
}

#[test]
fn tile_set_has_one_property_per_tile() {
    let tileset = TileSet::new(
        "terrain".to_owned(),
        "assets/images/terrain.png".to_owned(),
        64,
        64,
        32,
        32,
    );
    assert_eq!(tileset.columns, 2);
    assert_eq!(tileset.rows, 2);
    assert_eq!(tileset.properties.len(), 4);
    assert!(tileset.property(3).is_some());
    assert!(tileset.property(4).is_none());
}

#[test]
fn cloned_and_deserialized_layers_rebuild_runtime_index() {
    let mut layer = TileLayer::new(TileLayerKind::Decoration);
    layer.fill_entire(128, 128, 3);
    let mut cloned = layer.clone();
    cloned.set_tile(127, 127, 9);
    assert_eq!(cloned.tile_at(127, 127), Some(9));
    assert_eq!(layer.tile_at(127, 127), Some(3));

    let stored: Vec<TileCell> = layer.cells().clone();
    let mut restored = TileLayer::from_cells(layer.kind, layer.visible, stored);
    assert_eq!(restored.tile_at(64, 64), Some(3));
    restored.erase_tile(64, 64);
    assert_eq!(restored.tile_at(64, 64), None);
}

#[test]
fn stored_cell_order_follows_painting_and_erasing() {
    let mut layer = TileLayer::new(TileLayerKind::Ground);
    layer.set_tile(0, 0, 1);
    layer.set_tile(1, 0, 2);
    layer.set_tile(2, 0, 3);
    layer.set_tile(1, 0, 9);
    let positions: Vec<(i32, i32, u32)> = layer.cells().iter().map(|c| (c.x, c.y, c.tile_id)).collect();
    assert_eq!(positions, vec![(0, 0, 1), (1, 0, 9), (2, 0, 3)]);
    layer.erase_tile(0, 0);
    let positions: Vec<(i32, i32, u32)> = layer.cells().iter().map(|c| (c.x, c.y, c.tile_id)).collect();
    assert_eq!(positions, vec![(2, 0, 3), (1, 0, 9)]);
}
