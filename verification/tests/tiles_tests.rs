use rf_engine::raster::CoverageRaster;
use rf_engine::tiles::{sample_tile, tiles_in_range, zoom_scale, TILE_SIZE};

#[test]
fn zoom_scale_is_power_of_two() {
    assert_eq!(zoom_scale(0), 1);
    assert_eq!(zoom_scale(1), 2);
    assert_eq!(zoom_scale(10), 1024);
    assert_eq!(zoom_scale(31), 1u32 << 31);
}

#[test]
fn tiles_are_listed_row_by_row() {
    let t = tiles_in_range(7, 3, 5, 10, 13);
    let got: Vec<(u8, u32, u32)> = t.iter().map(|c| (c.z, c.x, c.y)).collect();
    assert_eq!(
        got,
        vec![(7, 3, 10), (7, 4, 10), (7, 3, 11), (7, 4, 11), (7, 3, 12), (7, 4, 12)]
    );
}

#[test]
fn empty_tile_ranges_give_no_tiles() {
    assert!(tiles_in_range(3, 5, 5, 0, 4).is_empty());
    assert!(tiles_in_range(3, 0, 4, 9, 2).is_empty());
    assert!(tiles_in_range(3, 6, 2, 9, 2).is_empty());
}

#[test]
fn tile_samples_raster_cells() {
    let mut r: CoverageRaster<(), (), i32> = CoverageRaster::new(2, 2, (), (), -9);
    r.set(0, 0, 1);
    r.set(1, 0, 2);
    r.set(0, 1, 3);
    r.set(1, 1, 4);
    let columns = vec![1, 0, 7];
    let rows = vec![0, 1];
    let tile = sample_tile(&r, &columns, &rows);
    assert_eq!(tile, vec![2, 1, -9, 4, 3, -9]);
}

#[test]
fn full_tile_has_tile_size_squared_cells() {
    let r: CoverageRaster<(), (), u8> = CoverageRaster::new(1, 1, (), (), 0);
    let columns = vec![0usize; TILE_SIZE];
    let rows = vec![5usize; TILE_SIZE];
    let tile = sample_tile(&r, &columns, &rows);
    assert_eq!(TILE_SIZE, 256);
    assert_eq!(tile.len(), TILE_SIZE * TILE_SIZE);
}
