use pathtracer::tiles::{ConfigError, Tile, TileGrid};

#[test]
fn grid_rejects_zero_side() {
    assert_eq!(TileGrid::new(40, 40, 0), Err(ConfigError::ZeroTileSide));
}

#[test]
fn grid_rejects_indivisible_dimensions() {
    assert_eq!(TileGrid::new(45, 40, 20), Err(ConfigError::NotDivisible));
    assert_eq!(TileGrid::new(40, 45, 20), Err(ConfigError::NotDivisible));
}

#[test]
fn grid_counts_tiles() {
    let grid = TileGrid::new(400, 300, 20).unwrap();
    assert_eq!(grid.columns(), 20);
    assert_eq!(grid.rows(), 15);
    assert_eq!(grid.tile_count(), 300);
    let empty = TileGrid::new(0, 0, 20).unwrap();
    assert_eq!(empty.tile_count(), 0);
}

#[test]
fn tiles_are_numbered_row_by_row() {
    let grid = TileGrid::new(60, 40, 20).unwrap();
    assert_eq!(grid.tile_at(0), Tile { x: 0, y: 0 });
    assert_eq!(grid.tile_at(2), Tile { x: 2, y: 0 });
    assert_eq!(grid.tile_at(3), Tile { x: 0, y: 1 });
    assert_eq!(grid.tile_at(5), Tile { x: 2, y: 1 });
    for k in 0..6 {
        assert_eq!(grid.tile_number(grid.tile_at(k)), k);
    }
    assert_eq!(grid.origin(Tile { x: 2, y: 1 }), (40, 20));
}

#[test]
fn tile_pixels_run_row_by_row() {
    let grid = TileGrid::new(6, 4, 2).unwrap();
    let pixels = grid.tile_pixels(Tile { x: 1, y: 1 });
    assert_eq!(pixels, vec![(2, 2), (3, 2), (2, 3), (3, 3)]);
}

#[test]
fn tiles_partition_the_image() {
    let grid = TileGrid::new(40, 40, 20).unwrap();
    let mut seen = vec![0u32; 40 * 40];
    for k in 0..grid.tile_count() {
        for (x, y) in grid.tile_pixels(grid.tile_at(k)) {
            seen[y * 40 + x] += 1;
        }
    }
    assert!(seen.iter().all(|n| *n == 1));
}
