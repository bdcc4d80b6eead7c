use sentinel2_array::{
    keeps_subdataset, parse_dataset, parse_subdataset, Cube, GeoTransform, MetadataEntry, Raster,
    RasterError, Subdataset,
};

const CRS: &str = "EPSG:32633";

fn entry(domain: &str, key: &str, value: &str) -> MetadataEntry {
    MetadataEntry { domain: domain.to_string(), key: key.to_string(), value: value.to_string() }
}

fn geo(size: i16) -> GeoTransform {
    GeoTransform::from_six_tuple((300000, size, 0, 1600020, 0, -size))
}

fn band_meta(name: &str) -> Vec<MetadataEntry> {
    vec![entry("", "BANDNAME", name), entry("", "WAVELENGTH", "490"), entry("IMAGERY", "BANDNAME", "ignored")]
}

fn subdataset(id: &str, transform: GeoTransform, crs: &str, extent: (usize, usize), names: &[&str]) -> Subdataset {
    Subdataset {
        description: id.to_string(),
        geo_transform: transform,
        projection: crs.to_string(),
        extent,
        bands: names.iter().map(|n| band_meta(n)).collect(),
    }
}

/// Runs discovery the way a caller that opened the datasets would.
fn open(subdatasets: Vec<Subdataset>) -> Result<Raster, RasterError> {
    let mut entries = vec![entry("", "PRODUCT_TYPE", "S2MSI2A")];
    for (i, s) in subdatasets.iter().enumerate() {
        entries.push(entry("SUBDATASETS", &format!("SUBDATASET_{}_NAME", i + 1), &s.description));
        entries.push(entry("SUBDATASETS", &format!("SUBDATASET_{}_DESC", i + 1), "description"));
    }
    let (metadata, ids) = parse_dataset(&entries);
    assert_eq!(ids.len(), subdatasets.len());
    let mut pairs = Vec::new();
    for s in subdatasets.iter() {
        if keeps_subdataset(&s.description) {
            pairs.extend(parse_subdataset(s)?);
        }
    }
    Raster::new("product.zip".to_string(), metadata, pairs)
}

fn standard_product() -> Raster {
    open(vec![
        subdataset("S2:10m", geo(10), CRS, (8, 8), &["B2", "B3"]),
        subdataset("S2:20m", geo(20), CRS, (4, 4), &["B4"]),
    ])
    .unwrap()
}

/// Reads every planned window from a band whose native pixel `(i, j)` holds `10 * i + j`.
fn read(raster: &Raster, names: &[&str], offset: (isize, isize), window: (usize, usize)) -> Result<Cube, RasterError> {
    let names: Vec<String> = names.iter().map(|n| n.to_string()).collect();
    let reads = raster.plan_read(&names, offset, window)?;
    let planes: Vec<Vec<Vec<u16>>> = reads
        .iter()
        .map(|r| {
            (0..r.size.0)
                .map(|i| (0..r.size.1).map(|j| (10 * (r.offset.0 as usize + i) + r.offset.1 as usize + j) as u16).collect())
                .collect()
        })
        .collect();
    Ok(Raster::assemble_bands(&reads, &planes, window))
}

#[test]
fn native_band_reads_directly() {
    let raster = standard_product();
    let cube = read(&raster, &["B2"], (0, 0), (2, 2)).unwrap();
    assert_eq!(cube.shape(), (1, 2, 2));
    assert_eq!(cube.data, vec![vec![vec![0, 1], vec![10, 11]]]);
}

#[test]
fn coarse_band_is_upsampled() {
    let raster = standard_product();
    let cube = read(&raster, &["B4"], (0, 0), (2, 2)).unwrap();
    assert_eq!(cube.data, vec![vec![vec![0, 0], vec![0, 0]]]);
}

#[test]
fn three_bands_share_the_reference_grid() {
    let raster = standard_product();
    let cube = read(&raster, &["B4", "B3", "B2"], (0, 0), (4, 4)).unwrap();
    assert_eq!(cube.shape(), (3, 4, 4));
    for x in 0..4usize {
        for y in 0..4usize {
            assert_eq!(cube.get(0, x, y), (10 * (x / 2) + y / 2) as u16);
            assert_eq!(cube.get(1, x, y), (10 * x + y) as u16);
            assert_eq!(cube.get(2, x, y), (10 * x + y) as u16);
        }
    }
}

#[test]
fn coarse_band_window_is_scaled() {
    let raster = standard_product();
    let names = vec!["B4".to_string(), "B2".to_string()];
    let reads = raster.plan_read(&names, (2, 2), (4, 4)).unwrap();
    assert_eq!((reads[0].offset, reads[0].size), ((1, 1), (2, 2)));
    assert_eq!((reads[1].offset, reads[1].size), ((2, 2), (4, 4)));
    assert_eq!(reads[0].location.path, "S2:20m");
    assert_eq!(reads[0].location.index, 1);
    assert_eq!(reads[1].location.index, 1);
}

#[test]
fn offset_window_reads_the_shifted_samples() {
    let raster = standard_product();
    let cube = read(&raster, &["B3"], (3, 1), (2, 3)).unwrap();
    for x in 0..2usize {
        for y in 0..3usize {
            assert_eq!(cube.get(0, x, y), (10 * (3 + x) + 1 + y) as u16);
        }
    }
}

#[test]
fn tci_subdataset_is_skipped() {
    let raster = open(vec![
        subdataset("S2:10m", geo(10), CRS, (8, 8), &["B2", "B3"]),
        subdataset("S2:20m", geo(20), CRS, (4, 4), &["B4"]),
        subdataset("S2:TCI", geo(10), CRS, (8, 8), &["TCI_R", "TCI_G", "TCI_B"]),
    ])
    .unwrap();
    let names = raster.band_names();
    assert_eq!(names, vec!["B2".to_string(), "B3".to_string(), "B4".to_string()]);
    assert!(!keeps_subdataset(&"SENTINEL2_L2A:x.xml:TCI:EPSG_32633".to_string()));
    assert!(keeps_subdataset(&"SENTINEL2_L2A:x.xml:10m:EPSG_32633".to_string()));
}

#[test]
fn finest_occurrence_of_a_name_is_kept() {
    let raster = open(vec![
        subdataset("S2:20m", geo(20), CRS, (4, 4), &["B2", "B4"]),
        subdataset("S2:10m", geo(10), CRS, (8, 8), &["B2", "B3"]),
        subdataset("S2:60m", geo(60), CRS, (2, 2), &["B2"]),
    ])
    .unwrap();
    assert_eq!(raster.band_names(), vec!["B2".to_string(), "B3".to_string(), "B4".to_string()]);
    let b2 = raster.band_info(&"B2".to_string()).unwrap();
    assert_eq!(b2.resolution(), 10);
    assert_eq!(b2.reader().path, "S2:10m");
    assert_eq!(raster.highest_resolution_transform, geo(10));
    assert_eq!(raster.proj, CRS);
}

#[test]
fn unknown_band_is_reported() {
    let raster = standard_product();
    match read(&raster, &["B9"], (0, 0), (1, 1)) {
        Err(RasterError::BandNotFound(n)) => assert_eq!(n, "B9"),
        other => panic!("unexpected {:?}", other),
    }
    match read(&raster, &["B2", "B8", "B9"], (0, 0), (1, 1)) {
        Err(RasterError::BandNotFound(n)) => assert_eq!(n, "B8"),
        other => panic!("unexpected {:?}", other),
    }
}

#[test]
fn mixed_projections_fail() {
    let r = open(vec![
        subdataset("S2:10m", geo(10), "EPSG:32633", (8, 8), &["B2"]),
        subdataset("S2:20m", geo(20), "EPSG:32634", (4, 4), &["B4"]),
    ]);
    match r {
        Err(RasterError::MultipleProjectionsInDataset(p)) => assert_eq!(p, "product.zip"),
        other => panic!("unexpected {:?}", other),
    }
}

#[test]
fn empty_product_fails() {
    match open(vec![]) {
        Err(RasterError::MultipleProjectionsInDataset(_)) => {}
        other => panic!("unexpected {:?}", other),
    }
}

#[test]
fn singular_transform_fails_on_read() {
    let raster = open(vec![
        subdataset("S2:10m", geo(10), CRS, (8, 8), &["B2"]),
        subdataset("S2:bad", GeoTransform::from_six_tuple((5, 0, 0, 7, 0, 0)), CRS, (8, 8), &["B5"]),
    ])
    .unwrap();
    match read(&raster, &["B2", "B5"], (0, 0), (2, 2)) {
        Err(RasterError::BandTransformNotInvertible(n)) => assert_eq!(n, "B5"),
        other => panic!("unexpected {:?}", other),
    }
    assert!(read(&raster, &["B2"], (0, 0), (2, 2)).is_ok());
}

#[test]
fn missing_band_name_fails_open() {
    let mut s = subdataset("S2:10m", geo(10), CRS, (8, 8), &["B2"]);
    s.bands.push(vec![entry("", "WAVELENGTH", "560"), entry("OTHER", "BANDNAME", "B3")]);
    match open(vec![s]) {
        Err(RasterError::MetadataKeyNotFound { dataset_path, key }) => {
            assert_eq!(dataset_path, "S2:10m");
            assert_eq!(key, "BANDNAME");
        }
        other => panic!("unexpected {:?}", other),
    }
}

#[test]
fn empty_window_gives_empty_cube() {
    let raster = standard_product();
    let cube = read(&raster, &["B2", "B4", "B3"], (0, 0), (0, 0)).unwrap();
    assert_eq!(cube.shape(), (3, 0, 0));
    assert_eq!(cube.data.len(), 3);
    assert!(cube.data.iter().all(|p| p.is_empty()));
}

#[test]
fn repeated_name_gives_identical_planes() {
    let raster = standard_product();
    let cube = read(&raster, &["B4", "B2", "B4"], (0, 0), (3, 3)).unwrap();
    assert_eq!(cube.data[0], cube.data[2]);
}

#[test]
fn repeated_reads_are_identical() {
    let raster = standard_product();
    let a = read(&raster, &["B4", "B3"], (1, 2), (3, 2)).unwrap();
    let b = read(&raster, &["B4", "B3"], (1, 2), (3, 2)).unwrap();
    assert_eq!(a, b);
}

#[test]
fn opening_twice_gives_equal_products() {
    let a = standard_product();
    let b = standard_product();
    assert_eq!(a.band_names(), b.band_names());
    assert_eq!(a.proj, b.proj);
    for n in a.band_names() {
        assert_eq!(a.band_info(&n).unwrap().resolution(), b.band_info(&n).unwrap().resolution());
    }
}

#[test]
fn product_metadata_and_subdatasets_are_parsed() {
    let entries = vec![
        entry("", "A", "1"),
        entry("SUBDATASETS", "SUBDATASET_1_NAME", "first"),
        entry("SUBDATASETS", "SUBDATASET_1_DESC", "not a name"),
        entry("", "A", "2"),
        entry("OTHER", "SUBDATASET_2_NAME", "not a subdataset"),
        entry("SUBDATASETS", "SUBDATASET_2_NAME", "second"),
    ];
    let (metadata, ids) = parse_dataset(&entries);
    assert_eq!(ids, vec!["first".to_string(), "second".to_string()]);
    assert_eq!(metadata.get("A"), Some(&"2".to_string()));
    assert_eq!(metadata.get("B"), None);
}
