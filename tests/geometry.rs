use sentinel2_array::text::contains;
use sentinel2_array::{pixel_map, sample_index, transform_window, BandGroup, BandInfo, GeoTransform, Metadata};

#[test]
fn substring_search() {
    assert!(contains("SUBDATASET_1_NAME", "NAME"));
    assert!(contains("abc", ""));
    assert!(!contains("NAM", "NAME"));
    assert!(!contains("SUBDATASET_1_DESC", "NAME"));
}

#[test]
fn pixel_map_between_grids() {
    let reference = GeoTransform::from_six_tuple((300000, 10, 0, 1600020, 0, -10));
    let band = GeoTransform::from_six_tuple((300000, 20, 0, 1600020, 0, -20));
    let m = pixel_map(&band, &reference).unwrap();
    assert_eq!((m.ux, m.uy, m.uc, m.vx, m.vy, m.vc, m.den), (200, 0, 0, 0, 200, 0, 400));
    let same = pixel_map(&reference, &reference).unwrap();
    assert_eq!((same.ux, same.uy, same.uc, same.vx, same.vy, same.vc), (100, 0, 0, 0, 100, 0));
    assert_eq!(same.den, 100);
    let shifted = GeoTransform::from_six_tuple((300020, 10, 0, 1600000, 0, -10));
    let s = pixel_map(&shifted, &reference).unwrap();
    assert_eq!((s.uc, s.vc, s.den), (-200, -200, 100));
    let singular = GeoTransform::from_six_tuple((1, 0, 0, 2, 0, 0));
    assert!(pixel_map(&singular, &reference).is_none());
}

#[test]
fn window_is_clipped_to_extent() {
    let reference = GeoTransform::from_six_tuple((0, 10, 0, 0, 0, -10));
    let band = GeoTransform::from_six_tuple((0, 20, 0, 0, 0, -20));
    let m = pixel_map(&band, &reference).unwrap();
    assert_eq!(transform_window((0, 0), (4, 4), &m, (100, 100)), ((0, 0), (2, 2)));
    assert_eq!(transform_window((1, 1), (2, 2), &m, (100, 100)), ((0, 0), (2, 2)));
    assert_eq!(transform_window((-4, -4), (6, 6), &m, (100, 100)), ((0, 0), (1, 1)));
    assert_eq!(transform_window((190, 0), (20, 4), &m, (100, 100)), ((95, 0), (5, 2)));
    assert_eq!(transform_window((500, 0), (4, 4), &m, (100, 100)), ((0, 0), (0, 0)));
    assert_eq!(transform_window((0, 0), (0, 0), &m, (100, 100)), ((0, 0), (0, 0)));
}

#[test]
fn sample_index_truncates_and_saturates() {
    assert_eq!(sample_index(7, 2), 3);
    assert_eq!(sample_index(-1, 2), 0);
    assert_eq!(sample_index(-7, 2), 0);
    assert_eq!(sample_index(i128::MAX, 1), usize::MAX);
}

#[test]
fn resolution_is_a_saturated_byte() {
    let info = |m11: i16| {
        let g = BandGroup::new("p".to_string(), "c".to_string(), GeoTransform::from_six_tuple((0, m11, 0, 0, 0, -10)), (1, 1));
        BandInfo::new(g, 1, Metadata::new())
    };
    assert_eq!(info(10).resolution(), 10);
    assert_eq!(info(60).resolution(), 60);
    assert_eq!(info(300).resolution(), 255);
    assert_eq!(info(-5).resolution(), 0);
}

#[test]
fn metadata_insert_replaces() {
    let mut m = Metadata::new();
    m.insert("K".to_string(), "1".to_string());
    m.insert("L".to_string(), "2".to_string());
    m.insert("K".to_string(), "3".to_string());
    assert_eq!(m.get("K"), Some(&"3".to_string()));
    assert_eq!(m.get("L"), Some(&"2".to_string()));
    assert_eq!(m.get("M"), None);
}
