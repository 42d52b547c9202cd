use gridmerge::geo::{normalize_longitude, BasinRaster, ClassifyError};
use gridmerge::ident::{format_level_id, format_location_id};

#[test]
fn longitude_normalization() {
    assert_eq!(normalize_longitude(200000), -160000);
    assert_eq!(normalize_longitude(180000), 180000);
    assert_eq!(normalize_longitude(0), 0);
    assert_eq!(normalize_longitude(360000), 0);
    assert_eq!(normalize_longitude(180001), -179999);
}

fn raster() -> BasinRaster {
    BasinRaster { rows: vec![vec![1, 2], vec![3, 4]] }
}

#[test]
fn classify_at_corner_returns_its_cell() {
    assert_eq!(raster().classify(-179500, -77500), Ok(1));
    assert_eq!(raster().classify(-178500, -76500), Ok(4));
    assert_eq!(raster().classify(-178500, -77500), Ok(2));
}

#[test]
fn classify_ties_go_to_bottom_left() {
    assert_eq!(raster().classify(-179000, -77000), Ok(1));
    assert_eq!(raster().classify(-179000, -76500), Ok(3));
}

#[test]
fn classify_nearest_corner() {
    assert_eq!(raster().classify(-178600, -76600), Ok(4));
    assert_eq!(raster().classify(-179400, -76600), Ok(3));
}

#[test]
fn classify_out_of_raster() {
    assert_eq!(raster().classify(0, 0), Err(ClassifyError::OutOfRaster { row: 77, column: 179 }));
    assert_eq!(raster().classify(-180100, -77500), Err(ClassifyError::OutOfRaster { row: 0, column: -1 }));
}

#[test]
fn location_ids_have_three_decimals() {
    assert_eq!(format_location_id(-160000, 45250), "-160.000_45.250");
    assert_eq!(format_location_id(-500, 7), "-0.500_0.007");
    assert_eq!(format_location_id(123456, -65432), "123.456_-65.432");
}

#[test]
fn level_ids_add_the_depth() {
    assert_eq!(format_level_id(1, 2, 5000), "0.001_0.002_5.000");
    assert_eq!(format_level_id(-1500, 0, 27500), "-1.500_0.000_27.500");
}
