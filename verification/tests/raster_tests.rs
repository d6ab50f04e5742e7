use rf_engine::raster::CoverageRaster;

fn sample_raster() -> CoverageRaster<(i32, i32), u32, i64> {
    CoverageRaster::new(3, 2, (1, 2), 30, -1)
}

#[test]
fn fresh_raster_holds_nodata() {
    let r = sample_raster();
    assert_eq!(r.width, 3);
    assert_eq!(r.height, 2);
    assert_eq!(r.bounds, (1, 2));
    assert_eq!(r.resolution_m, 30);
    assert_eq!(r.data, vec![-1; 6]);
    assert!(r.source_ids.is_empty());
    for y in 0..2 {
        for x in 0..3 {
            assert_eq!(r.get(x, y), -1);
        }
    }
}

#[test]
fn read_after_write_gives_written_value() {
    let mut r = sample_raster();
    r.set(2, 1, 42);
    assert_eq!(r.get(2, 1), 42);
    assert_eq!(r.data[1 * 3 + 2], 42);
    assert_eq!(r.get(1, 1), -1);
    assert_eq!(r.get(2, 0), -1);
}

#[test]
fn write_outside_grid_changes_nothing() {
    let mut r = sample_raster();
    r.set(1, 0, 7);
    let before = r.data.clone();
    r.set(3, 0, 9);
    r.set(0, 2, 9);
    r.set(usize::MAX, usize::MAX, 9);
    assert_eq!(r.data, before);
}

#[test]
fn read_outside_grid_gives_nodata() {
    let mut r = sample_raster();
    r.set(0, 0, 5);
    assert_eq!(r.get(3, 0), -1);
    assert_eq!(r.get(0, 2), -1);
    assert_eq!(r.get(100, 100), -1);
}

#[test]
fn buffer_is_row_major() {
    let mut r = sample_raster();
    r.set(0, 0, 1);
    r.set(1, 0, 2);
    r.set(2, 0, 3);
    r.set(0, 1, 4);
    r.set(1, 1, 5);
    r.set(2, 1, 6);
    assert_eq!(r.to_f32_buffer(), &[1, 2, 3, 4, 5, 6]);
}

#[test]
fn source_ids_are_recorded_once() {
    let mut r = sample_raster();
    r.record_source_id("lidar".to_string());
    r.record_source_id("flat".to_string());
    r.record_source_id("lidar".to_string());
    assert_eq!(r.source_ids, vec!["lidar".to_string(), "flat".to_string()]);
}

#[test]
fn results_are_applied_in_order() {
    let mut r = sample_raster();
    let results = vec![
        (0, 0, 10, Some("a".to_string())),
        (2, 1, 20, None),
        (5, 5, 30, Some("b".to_string())),
        (0, 0, 40, Some("a".to_string())),
    ];
    r.apply_results(&results);
    assert_eq!(r.get(0, 0), 40);
    assert_eq!(r.get(2, 1), 20);
    assert_eq!(r.data, vec![40, -1, -1, -1, -1, 20]);
    assert_eq!(r.source_ids, vec!["a".to_string(), "b".to_string()]);
}

#[test]
fn empty_raster_has_no_cells() {
    let r: CoverageRaster<(), (), u8> = CoverageRaster::new(0, 5, (), (), 0);
    assert!(r.data.is_empty());
    assert_eq!(r.get(0, 0), 0);
}
