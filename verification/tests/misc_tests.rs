use rf_engine::coverage::pixel_grid;
use rf_engine::grid::sample_cells;
use rf_engine::types::{path_type_label, to_polarization, PathType, Polarization, VerticalDatum};

#[test]
fn polarization_codes() {
    assert_eq!(to_polarization(Some(2)), Polarization::Vertical);
    assert_eq!(to_polarization(Some(1)), Polarization::Horizontal);
    assert_eq!(to_polarization(Some(0)), Polarization::Horizontal);
    assert_eq!(to_polarization(Some(255)), Polarization::Horizontal);
    assert_eq!(to_polarization(None), Polarization::Horizontal);
}

#[test]
fn path_type_labels() {
    assert_eq!(path_type_label(PathType::LineOfSight), "los");
    assert_eq!(path_type_label(PathType::TransHorizon), "transhorizon");
}

#[test]
fn default_vertical_datum_is_egm96() {
    assert_eq!(VerticalDatum::default(), VerticalDatum::Egm96);
}

#[test]
fn interior_sample_reads_neighbours() {
    let c = sample_cells(4, 3, 1, 1, false, true);
    assert_eq!(c.upper_left, 5);
    assert_eq!(c.upper_right, 6);
    assert_eq!(c.lower_left, 9);
    assert_eq!(c.lower_right, 10);
    assert_eq!(c.nearest, 9);
}

#[test]
fn edge_sample_stays_on_last_cell() {
    let c = sample_cells(4, 3, 3, 2, true, true);
    assert_eq!(c.upper_left, 11);
    assert_eq!(c.upper_right, 11);
    assert_eq!(c.lower_left, 11);
    assert_eq!(c.lower_right, 11);
    assert_eq!(c.nearest, 11);
}

#[test]
fn single_cell_grid() {
    let c = sample_cells(1, 1, 0, 0, true, false);
    assert_eq!((c.upper_left, c.upper_right, c.lower_left, c.lower_right, c.nearest), (0, 0, 0, 0, 0));
}

#[test]
fn pixels_are_row_major() {
    assert_eq!(pixel_grid(3, 2), vec![(0, 0), (1, 0), (2, 0), (0, 1), (1, 1), (2, 1)]);
    assert!(pixel_grid(0, 4).is_empty());
    assert!(pixel_grid(4, 0).is_empty());
}
