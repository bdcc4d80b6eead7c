//! Discovery of a product's bands and the planning and assembly of windowed reads.
use vstd::prelude::*;

use crate::band::{
    fold_bands, insert_band, last_index_of, lookup_entry, insert_entry, names_of, pairs_view, BandGroup, BandInfo,
    BandLocation, Bands, Metadata, MetadataEntry,
};
use crate::error::RasterError;
use crate::text::{contains, occurs_in};
use crate::transform::{
    pixel_map, pixel_map_spec, sample_index, saturating_index, transform_window,
    transform_window_spec, GeoTransform, PixelMap,
};

verus! {

/// The entries of `entries` in the empty domain, folded into a mapping; a
/// later entry replaces an earlier one with the same key.
pub open spec fn domain_metadata(entries: Seq<MetadataEntry>) -> Seq<(Seq<char>, Seq<char>)>
    decreases entries.len(),
{
    if entries.len() == 0 {
        Seq::empty()
    } else {
        let prev = domain_metadata(entries.drop_last());
        let e = entries.last();
        if e.domain@.len() == 0 {
            insert_entry(prev, e.key@, e.value@)
        } else {
            prev
        }
    }
}

/// The values of the entries in the `SUBDATASETS` domain whose key holds
/// `NAME`, in order: the identifiers of the product's subdatasets.
pub open spec fn subdataset_names(entries: Seq<MetadataEntry>) -> Seq<Seq<char>>
    decreases entries.len(),
{
    if entries.len() == 0 {
        Seq::empty()
    } else {
        let prev = subdataset_names(entries.drop_last());
        let e = entries.last();
        if e.domain@ == "SUBDATASETS"@ && occurs_in(e.key@, "NAME"@) {
            prev.push(e.value@)
        } else {
            prev
        }
    }
}

/// The views of a sequence of strings.
pub open spec fn strings_view(s: Seq<String>) -> Seq<Seq<char>> {
    s.map_values(|x: String| x@)
}

/// Folds metadata entries in the empty domain into a mapping, as [`domain_metadata`] says.
#[verifier::rlimit(50)]
pub fn collect_metadata(entries: &Vec<MetadataEntry>) -> (r: Metadata)
    ensures
        r@ == domain_metadata(entries@),
{
    let mut meta = Metadata::new();
    let mut i: usize = 0;
    while i < entries.len()
        invariant
            i <= entries.len(),
            meta@ == domain_metadata(entries@.subrange(0, i as int)),
        decreases entries.len() - i,
    {
        let e = &entries[i];
        assert(entries@.subrange(0, i + 1).drop_last() =~= entries@.subrange(0, i as int));
        if e.domain.as_str().is_empty() {
            meta.insert(e.key.clone(), e.value.clone());
        }
        i = i + 1;
    }
    assert(entries@.subrange(0, entries.len() as int) =~= entries@);
    meta
}

/// What a product's top-level metadata holds: its own metadata, from the
/// empty domain, and the identifiers of its subdatasets.
pub fn parse_dataset(entries: &Vec<MetadataEntry>) -> (r: (Metadata, Vec<String>))
    ensures
        r.0@ == domain_metadata(entries@),
        strings_view(r.1@) == subdataset_names(entries@),
{
    let meta = collect_metadata(entries);
    let subdatasets_domain = "SUBDATASETS".to_owned();
    let name_key = "NAME".to_owned();
    let mut ids: Vec<String> = Vec::new();
    let mut i: usize = 0;
    while i < entries.len()
        invariant
            i <= entries.len(),
            subdatasets_domain@ == "SUBDATASETS"@,
            name_key@ == "NAME"@,
            strings_view(ids@) == subdataset_names(entries@.subrange(0, i as int)),
        decreases entries.len() - i,
    {
        let e = &entries[i];
        assert(entries@.subrange(0, i + 1).drop_last() =~= entries@.subrange(0, i as int));
        let ghost before = ids@;
        if String::eq(&e.domain, &subdatasets_domain) && contains(e.key.as_str(), name_key.as_str()) {
            ids.push(e.value.clone());
            assert(strings_view(ids@) =~= strings_view(before).push(e.value@));
        }
        i = i + 1;
    }
    assert(entries@.subrange(0, entries.len() as int) =~= entries@);
    (meta, ids)
}

/// Whether discovery reads a subdataset: true-colour composites, whose
/// identifier holds `TCI`, are left out.
pub fn keeps_subdataset(description: &String) -> (r: bool)
    ensures
        r == !occurs_in(description@, "TCI"@),
{
    let tci = "TCI".to_owned();
    !contains(description.as_str(), tci.as_str())
}

/// What the raster library tells of one subdataset: its identifier, its
/// geo-transform, its projection, its size and the metadata of each of its
/// bands, in band order.
pub struct Subdataset {
    pub description: String,
    pub geo_transform: GeoTransform,
    pub projection: String,
    pub extent: (usize, usize),
    pub bands: Vec<Vec<MetadataEntry>>,
}

/// Every band of the subdataset names itself under `BANDNAME`.
pub open spec fn all_bands_named(bands: Seq<Vec<MetadataEntry>>) -> bool {
    forall|b: int| 0 <= b < bands.len() ==> lookup_entry(#[trigger] domain_metadata(bands[b]@), "BANDNAME"@) is Some
}

/// Band `b` of `sub`, named and placed as discovery places it.
pub open spec fn is_band_of(sub: Subdataset, b: int, pair: (String, BandInfo)) -> bool {
    let meta = domain_metadata(sub.bands[b]@);
    &&& Some(pair.0@) == lookup_entry(meta, "BANDNAME"@)
    &&& pair.1.index == b + 1
    &&& pair.1.group.gdal_dataset_path@ == sub.description@
    &&& pair.1.group.crs@ == sub.projection@
    &&& pair.1.group.geo_transform == sub.geo_transform
    &&& pair.1.group.extent == sub.extent
    &&& pair.1.metadata@ == meta
}

/// The named bands of one subdataset, in band order. Fails when a band's
/// metadata has no `BANDNAME`.
pub fn parse_subdataset(sub: &Subdataset) -> (r: Result<Vec<(String, BandInfo)>, RasterError>)
    requires
        sub.bands@.len() < usize::MAX,
    ensures
        r is Ok <==> all_bands_named(sub.bands@),
        r matches Err(e) ==> (e matches RasterError::MetadataKeyNotFound { dataset_path, key }
            && dataset_path@ == sub.description@ && key@ == "BANDNAME"@),
        r matches Ok(v) ==> v@.len() == sub.bands@.len()
            && forall|b: int| 0 <= b < v@.len() ==> is_band_of(*sub, b, #[trigger] v@[b]),
{
    let band_key = "BANDNAME".to_owned();
    let mut out: Vec<(String, BandInfo)> = Vec::new();
    let mut i: usize = 0;
    while i < sub.bands.len()
        invariant
            i <= sub.bands@.len() < usize::MAX,
            band_key@ == "BANDNAME"@,
            out@.len() == i,
            forall|b: int| 0 <= b < i ==> is_band_of(*sub, b, #[trigger] out@[b]),
            forall|b: int| 0 <= b < i ==> lookup_entry(#[trigger] domain_metadata(sub.bands[b]@), "BANDNAME"@) is Some,
        decreases sub.bands@.len() - i,
    {
        let meta = collect_metadata(&sub.bands[i]);
        let name = match meta.get(band_key.as_str()) {
            Some(n) => n.clone(),
            None => {
                return Err(RasterError::MetadataKeyNotFound {
                    dataset_path: sub.description.clone(),
                    key: band_key,
                });
            },
        };
        let group = BandGroup::new(sub.description.clone(), sub.projection.clone(), sub.geo_transform, sub.extent);
        out.push((name, BandInfo::new(group, i + 1, meta)));
        i = i + 1;
    }
    Ok(out)
}

} // verus!

verus! {

proof fn lemma_insert_band_elements(s: Seq<(Seq<char>, BandInfo)>, n: Seq<char>, info: BandInfo)
    ensures
        forall|k: int| 0 <= k < insert_band(s, n, info).len() ==>
            (#[trigger] insert_band(s, n, info)[k] == (n, info) || (k < s.len() && insert_band(s, n, info)[k] == s[k])),
{
    let i = last_index_of(names_of(s), n);
    let r = insert_band(s, n, info);
    crate::band::lemma_last_index_of_bounds(names_of(s), n);
    if i < 0 {
        assert(r == s.push((n, info)));
        assert forall|k: int| 0 <= k < r.len() implies (#[trigger] r[k] == (n, info) || (k < s.len() && r[k] == s[k])) by {
            if k < s.len() {
                assert(r[k] == s[k]);
            }
        }
    } else if s[i].1.m11() < info.m11() {
        assert(r == s);
    } else {
        assert(r == s.update(i, (n, info)));
        assert forall|k: int| 0 <= k < r.len() implies (#[trigger] r[k] == (n, info) || (k < s.len() && r[k] == s[k])) by {
            if k != i {
                assert(r[k] == s[k]);
            }
        }
    }
}

/// Every element of the folded map is one of the pairs it was folded from.
pub proof fn lemma_fold_bands_elements(pairs: Seq<(Seq<char>, BandInfo)>)
    ensures
        forall|k: int| 0 <= k < fold_bands(pairs).len() ==>
            exists|j: int| 0 <= j < pairs.len() && pairs[j] == #[trigger] fold_bands(pairs)[k],
    decreases pairs.len(),
{
    if pairs.len() > 0 {
        let prev = pairs.drop_last();
        lemma_fold_bands_elements(prev);
        let f = fold_bands(pairs);
        let fp = fold_bands(prev);
        let (n, info) = (pairs.last().0, pairs.last().1);
        assert(f == insert_band(fp, n, info));
        assert(pairs[pairs.len() - 1] == (n, info));
        lemma_insert_band_elements(fp, n, info);
        assert forall|k: int| 0 <= k < f.len() implies exists|j: int| 0 <= j < pairs.len() && pairs[j] == #[trigger] f[k] by {
            if f[k] == (n, info) {
                assert(pairs[pairs.len() - 1] == f[k]);
            } else {
                assert(k < fp.len() && f[k] == fp[k]);
                let j = choose|j: int| 0 <= j < prev.len() && prev[j] == fp[k];
                assert(pairs[j] == prev[j]);
            }
        }
    }
}

/// `k` is the first position of a band with the smallest pixel size.
pub open spec fn is_first_finest(s: Seq<(Seq<char>, BandInfo)>, k: int) -> bool {
    &&& 0 <= k < s.len()
    &&& forall|j: int| 0 <= j < s.len() ==> s[k].1.m11() <= #[trigger] s[j].1.m11()
    &&& forall|j: int| 0 <= j < k ==> #[trigger] s[j].1.m11() > s[k].1.m11()
}

/// The bands that discovery keeps of the named bands `pairs`.
pub open spec fn kept_bands(pairs: Seq<(String, BandInfo)>) -> Seq<(Seq<char>, BandInfo)> {
    fold_bands(pairs_view(pairs))
}

/// There is at least one band and all bands carry the same CRS.
pub open spec fn has_one_crs(s: Seq<(Seq<char>, BandInfo)>) -> bool {
    s.len() > 0 && forall|i: int| 0 <= i < s.len() ==> (#[trigger] s[i]).1.group.crs@ == s[0].1.group.crs@
}

/// `raster` is the product built from `path`, `metadata` and the named bands `pairs`.
pub open spec fn opened_from(
    path: Seq<char>,
    metadata: Seq<(Seq<char>, Seq<char>)>,
    pairs: Seq<(String, BandInfo)>,
    raster: Raster,
) -> bool {
    &&& raster.wf()
    &&& raster.path@ == path
    &&& raster.metadata@ == metadata
    &&& raster.bands_info@ == kept_bands(pairs)
    &&& raster.proj@ == kept_bands(pairs)[0].1.group.crs@
    &&& exists|k: int| is_first_finest(kept_bands(pairs), k)
        && kept_bands(pairs)[k].1.group.geo_transform == raster.highest_resolution_transform
}

/// A product: its path, its metadata, its bands by name, its one CRS and the
/// transform of its finest band, which is the grid of every read.
#[derive(Debug)]
pub struct Raster {
    pub path: String,
    pub bands_info: Bands,
    pub metadata: Metadata,
    pub proj: String,
    pub highest_resolution_transform: GeoTransform,
}

impl Raster {
    /// At least one band; every band carries the product's CRS; the reference
    /// transform is that of a band with the smallest pixel size; every band's
    /// size fits in `isize`.
    pub open spec fn wf(&self) -> bool {
        let s = self.bands_info@;
        &&& s.len() > 0
        &&& forall|i: int| 0 <= i < s.len() ==> (#[trigger] s[i]).1.group.crs@ == self.proj@
        &&& forall|i: int| 0 <= i < s.len() ==> self.highest_resolution_transform.m11 <= (#[trigger] s[i]).1.m11()
        &&& exists|k: int| 0 <= k < s.len() && (#[trigger] s[k]).1.group.geo_transform == self.highest_resolution_transform
        &&& forall|i: int| 0 <= i < s.len() ==> (#[trigger] s[i]).1.group.extent.0 <= isize::MAX
            && s[i].1.group.extent.1 <= isize::MAX
    }

    /// Builds a product from its path, its metadata and the named bands of its
    /// subdatasets, in discovery order. Bands sharing a name keep the finest;
    /// the product must then hold bands of exactly one CRS.
    pub fn new(path: String, metadata: Metadata, pairs: Vec<(String, BandInfo)>) -> (r: Result<Raster, RasterError>)
        requires
            forall|j: int| 0 <= j < pairs@.len() ==> (#[trigger] pairs@[j]).1.group.extent.0 <= isize::MAX
                && pairs@[j].1.group.extent.1 <= isize::MAX,
        ensures
            r is Ok <==> has_one_crs(kept_bands(pairs@)),
            r matches Err(e) ==> (e matches RasterError::MultipleProjectionsInDataset(p) && p@ == path@),
            r matches Ok(raster) ==> opened_from(path@, metadata@, pairs@, raster),
    {
        let ghost pv = pairs_view(pairs@);
        let bands = Bands::from_pairs(pairs);
        let ghost f = bands@;
        proof {
            lemma_fold_bands_elements(pv);
            assert forall|i: int| 0 <= i < f.len() implies (#[trigger] f[i]).1.group.extent.0 <= isize::MAX
                && f[i].1.group.extent.1 <= isize::MAX by {
                let j = choose|j: int| 0 <= j < pv.len() && pv[j] == f[i];
                assert(pv[j].1 == pairs@[j].1);
            }
        }
        let n = bands.len();
        if n == 0 {
            return Err(RasterError::MultipleProjectionsInDataset(path));
        }
        let first_crs = bands.entry(0).1.group.crs.clone();
        let mut k: usize = 0;
        let mut i: usize = 0;
        while i < n
            invariant
                n == f.len() > 0,
                f == bands@,
                f == kept_bands(pairs@),
                first_crs@ == f[0].1.group.crs@,
                i <= n,
                k < n,
                k <= i,
                forall|j: int| 0 <= j < i ==> (#[trigger] f[j]).1.group.crs@ == first_crs@,
                forall|j: int| 0 <= j < i ==> f[k as int].1.m11() <= (#[trigger] f[j]).1.m11(),
                forall|j: int| 0 <= j < k ==> (#[trigger] f[j]).1.m11() > f[k as int].1.m11(),
            decreases n - i,
        {
            let (_, b) = bands.entry(i);
            if !String::eq(&b.group.crs, &first_crs) {
                assert(f[i as int].1.group.crs@ != f[0].1.group.crs@);
                assert(!has_one_crs(f));
                return Err(RasterError::MultipleProjectionsInDataset(path));
            }
            if b.group.geo_transform.m11 < bands.entry(k).1.group.geo_transform.m11 {
                k = i;
            }
            i = i + 1;
        }
        let highest_resolution_transform = bands.entry(k).1.group.geo_transform;
        assert(is_first_finest(f, k as int));
        let raster = Raster { path, bands_info: bands, metadata, proj: first_crs, highest_resolution_transform };
        proof {
            let s = raster.bands_info@;
            assert(s[k as int].1.group.geo_transform == raster.highest_resolution_transform);
            assert forall|j: int| 0 <= j < s.len() implies raster.highest_resolution_transform.m11 <= (#[trigger] s[j]).1.m11() by {
                assert(f[k as int].1.m11() <= f[j].1.m11());
            }
            assert(raster.wf());
        }
        Ok(raster)
    }
}

} // verus!

verus! {

/// One band's part of a read: where to read, which source window, and how
/// output pixels map into that window's grid.
#[derive(Debug, PartialEq, Eq)]
pub struct BandRead {
    pub location: BandLocation,
    pub offset: (isize, isize),
    pub size: (usize, usize),
    pub map: PixelMap,
}

/// A dense cube of samples, indexed `[band][x][y]`.
#[derive(Debug, PartialEq, Eq)]
pub struct Cube {
    pub shape: (usize, usize, usize),
    pub data: Vec<Vec<Vec<u16>>>,
}

impl Cube {
    /// The shape is `(bands, width, height)` and the data has that shape.
    pub open spec fn wf(&self) -> bool {
        &&& self.data@.len() == self.shape.0
        &&& forall|c: int| 0 <= c < self.data@.len() ==> (#[trigger] self.data@[c])@.len() == self.shape.1
        &&& forall|c: int, x: int| 0 <= c < self.data@.len() && 0 <= x < self.data@[c]@.len()
            ==> (#[trigger] self.data@[c]@[x])@.len() == self.shape.2
    }

    /// The number of bands, the width and the height.
    pub fn shape(&self) -> (r: (usize, usize, usize))
        ensures
            r == self.shape,
    {
        self.shape
    }

    /// The sample at `[c][x][y]`.
    pub fn get(&self, c: usize, x: usize, y: usize) -> (r: u16)
        requires
            self.wf(),
            c < self.shape.0 && x < self.shape.1 && y < self.shape.2,
        ensures
            r == self.data@[c as int]@[x as int]@[y as int],
    {
        self.data[c][x][y]
    }
}

/// The sample at `[i][j]` of a plane, or 0 outside it.
pub open spec fn sample_at(plane: Seq<Vec<u16>>, i: int, j: int) -> u16 {
    if 0 <= i < plane.len() && 0 <= j < plane[i]@.len() {
        plane[i]@[j]
    } else {
        0
    }
}

/// The output sample at `(x, y)` of a band read into `plane` with map `m`:
/// the nearest source sample, found by truncating the mapped coordinates.
pub open spec fn cell_value(m: PixelMap, plane: Seq<Vec<u16>>, x: int, y: int) -> u16 {
    sample_at(plane, saturating_index(m.u_num(x, y), m.den as int), saturating_index(m.v_num(x, y), m.den as int))
}

/// The cube's plane `c` holds, at every `(x, y)` of the window, the cell value of read `c`.
pub open spec fn assembled(reads: Seq<BandRead>, planes: Seq<Vec<Vec<u16>>>, window: (usize, usize), cube: Cube) -> bool {
    &&& cube.wf()
    &&& cube.shape == (reads.len() as usize, window.0, window.1)
    &&& forall|c: int, x: int, y: int| 0 <= c < reads.len() && 0 <= x < window.0 && 0 <= y < window.1
        ==> (#[trigger] cube.data@[c]@[x]@[y]) == cell_value(reads[c].map, planes[c]@, x, y)
}

fn plane_sample(plane: &Vec<Vec<u16>>, i: usize, j: usize) -> (r: u16)
    ensures
        r == sample_at(plane@, i as int, j as int),
{
    if i < plane.len() && j < plane[i].len() {
        plane[i][j]
    } else {
        0
    }
}

fn fill_plane(m: &PixelMap, plane: &Vec<Vec<u16>>, window: (usize, usize)) -> (r: Vec<Vec<u16>>)
    requires
        m.wf(),
    ensures
        r@.len() == window.0,
        forall|x: int| 0 <= x < window.0 ==> (#[trigger] r@[x])@.len() == window.1,
        forall|x: int, y: int| 0 <= x < window.0 && 0 <= y < window.1
            ==> (#[trigger] r@[x]@[y]) == cell_value(*m, plane@, x, y),
{
    let mut out: Vec<Vec<u16>> = Vec::new();
    let mut x: usize = 0;
    while x < window.0
        invariant
            m.wf(),
            x <= window.0,
            out@.len() == x,
            forall|i: int| 0 <= i < x ==> (#[trigger] out@[i])@.len() == window.1,
            forall|i: int, y: int| 0 <= i < x && 0 <= y < window.1
                ==> (#[trigger] out@[i]@[y]) == cell_value(*m, plane@, i, y),
        decreases window.0 - x,
    {
        let mut column: Vec<u16> = Vec::new();
        let mut y: usize = 0;
        while y < window.1
            invariant
                m.wf(),
                x < window.0,
                y <= window.1,
                column@.len() == y,
                forall|j: int| 0 <= j < y ==> (#[trigger] column@[j]) == cell_value(*m, plane@, x as int, j),
            decreases window.1 - y,
        {
            let u = crate::transform::u_at(m, x as i128, y as i128);
            let v = crate::transform::v_at(m, x as i128, y as i128);
            let s = plane_sample(plane, sample_index(u, m.den), sample_index(v, m.den));
            column.push(s);
            y = y + 1;
        }
        out.push(column);
        x = x + 1;
    }
    out
}

impl Raster {
    /// `name` is held.
    pub open spec fn has_band(&self, name: Seq<char>) -> bool {
        last_index_of(names_of(self.bands_info@), name) >= 0
    }

    /// The band held under `name`.
    pub open spec fn band_of(&self, name: Seq<char>) -> BandInfo {
        self.bands_info@[last_index_of(names_of(self.bands_info@), name)].1
    }

    /// The band held under `name` has a singular transform.
    pub open spec fn is_singular(&self, name: Seq<char>) -> bool {
        pixel_map_spec(self.band_of(name).group.geo_transform, self.highest_resolution_transform) is None
    }

    /// `rd` is the read of band `name` for the output window at `offset` of `window`.
    pub open spec fn plans(&self, name: Seq<char>, offset: (isize, isize), window: (usize, usize), rd: BandRead) -> bool {
        let b = self.band_of(name);
        let m = pixel_map_spec(b.group.geo_transform, self.highest_resolution_transform);
        let w = transform_window_spec(offset, window, rd.map, b.group.extent);
        &&& m == Some(rd.map)
        &&& rd.map.wf()
        &&& rd.location.path@ == b.group.gdal_dataset_path@
        &&& rd.location.index == b.index
        &&& rd.offset.0 == w.0.0 && rd.offset.1 == w.0.1
        &&& rd.size.0 == w.1.0 && rd.size.1 == w.1.1
    }

    /// The names of the bands held, in ascending order.
    pub fn band_names(&self) -> (r: Vec<String>)
        ensures
            r@.len() == self.bands_info@.len(),
            crate::band::no_inversion(r@.map_values(|s: String| s@)),
            r@.map_values(|s: String| s@).to_multiset() == names_of(self.bands_info@).to_multiset(),
    {
        self.bands_info.names()
    }

    /// The band held under `band`.
    pub fn band_info(&self, band: &String) -> (r: Result<&BandInfo, RasterError>)
        ensures
            r is Ok <==> self.has_band(band@),
            r matches Ok(b) ==> *b == self.band_of(band@),
            r matches Err(e) ==> (e matches RasterError::BandNotFound(n) && n@ == band@),
    {
        self.bands_info.get(band)
    }

    /// The bands held under `bands`, in order; fails on the first name not held.
    pub fn bands_info(&self, bands: &Vec<String>) -> (r: Result<Vec<&BandInfo>, RasterError>)
        ensures
            r is Ok <==> forall|i: int| 0 <= i < bands@.len() ==> self.has_band(#[trigger] bands@[i]@),
            r matches Ok(v) ==> v@.len() == bands@.len()
                && forall|i: int| 0 <= i < bands@.len() ==> *(#[trigger] v@[i]) == self.band_of(bands@[i]@),
            r matches Err(e) ==> exists|i: int| 0 <= i < bands@.len() && !self.has_band(bands@[i]@)
                && (forall|j: int| 0 <= j < i ==> self.has_band(#[trigger] bands@[j]@))
                && (e matches RasterError::BandNotFound(n) && n@ == bands@[i]@),
    {
        let mut out: Vec<&BandInfo> = Vec::new();
        let mut i: usize = 0;
        while i < bands.len()
            invariant
                i <= bands@.len(),
                out@.len() == i,
                forall|j: int| 0 <= j < i ==> self.has_band(#[trigger] bands@[j]@),
                forall|j: int| 0 <= j < i ==> *(#[trigger] out@[j]) == self.band_of(bands@[j]@),
            decreases bands@.len() - i,
        {
            match self.band_info(&bands[i]) {
                Ok(b) => out.push(b),
                Err(e) => {
                    return Err(e);
                },
            }
            i = i + 1;
        }
        Ok(out)
    }

    /// Plans a read of the output window at `offset` of size `window` in the
    /// reference grid: for each requested name, in order, the band to read,
    /// its source window and its pixel map. Fails on the first name not held;
    /// when all are held, on the first whose transform is singular.
    #[verifier::rlimit(50)]
    pub fn plan_read(&self, names: &Vec<String>, offset: (isize, isize), window: (usize, usize)) -> (r: Result<Vec<BandRead>, RasterError>)
        requires
            self.wf(),
        ensures
            r is Ok <==> forall|i: int| 0 <= i < names@.len()
                ==> self.has_band(#[trigger] names@[i]@) && !self.is_singular(names@[i]@),
            r matches Ok(v) ==> v@.len() == names@.len()
                && forall|i: int| 0 <= i < names@.len() ==> self.plans(names@[i]@, offset, window, #[trigger] v@[i]),
            r matches Err(e) ==> {
                ||| exists|i: int| 0 <= i < names@.len() && !self.has_band(names@[i]@)
                    && (forall|j: int| 0 <= j < i ==> self.has_band(#[trigger] names@[j]@))
                    && (e matches RasterError::BandNotFound(n) && n@ == names@[i]@)
                ||| (forall|j: int| 0 <= j < names@.len() ==> self.has_band(#[trigger] names@[j]@))
                    && exists|i: int| 0 <= i < names@.len() && self.is_singular(names@[i]@)
                    && (forall|j: int| 0 <= j < i ==> !self.is_singular(#[trigger] names@[j]@))
                    && (e matches RasterError::BandTransformNotInvertible(n) && n@ == names@[i]@)
            },
    {
        let infos = match self.bands_info(names) {
            Ok(v) => v,
            Err(e) => {
                return Err(e);
            },
        };
        let mut out: Vec<BandRead> = Vec::new();
        let mut i: usize = 0;
        while i < infos.len()
            invariant
                self.wf(),
                infos@.len() == names@.len(),
                forall|j: int| 0 <= j < names@.len() ==> self.has_band(#[trigger] names@[j]@),
                forall|j: int| 0 <= j < names@.len() ==> *(#[trigger] infos@[j]) == self.band_of(names@[j]@),
                i <= names@.len(),
                out@.len() == i,
                forall|j: int| 0 <= j < i ==> !self.is_singular(#[trigger] names@[j]@),
                forall|j: int| 0 <= j < i ==> self.plans(names@[j]@, offset, window, #[trigger] out@[j]),
            decreases names@.len() - i,
        {
            let b = infos[i];
            proof {
                let s = self.bands_info@;
                let k = last_index_of(names_of(s), names@[i as int]@);
                crate::band::lemma_last_index_of_bounds(names_of(s), names@[i as int]@);
                assert(s[k].1 == b);
            }
            match pixel_map(&b.group.geo_transform, &self.highest_resolution_transform) {
                Some(m) => {
                    let (o, sz) = transform_window(offset, window, &m, b.group.extent);
                    out.push(BandRead { location: b.reader(), offset: o, size: sz, map: m });
                },
                None => {
                    return Err(RasterError::BandTransformNotInvertible(names[i].clone()));
                },
            }
            i = i + 1;
        }
        Ok(out)
    }

    /// Fills the output cube from the planes read for `reads`, one plane per
    /// read, each indexed as its source window: output `[c][x][y]` is the
    /// sample of plane `c` under read `c`'s map at `(x, y)`.
    pub fn assemble_bands(reads: &Vec<BandRead>, planes: &Vec<Vec<Vec<u16>>>, window: (usize, usize)) -> (r: Cube)
        requires
            reads@.len() == planes@.len(),
            forall|c: int| 0 <= c < reads@.len() ==> (#[trigger] reads@[c]).map.wf(),
        ensures
            assembled(reads@, planes@, window, r),
    {
        let mut data: Vec<Vec<Vec<u16>>> = Vec::new();
        let mut c: usize = 0;
        while c < reads.len()
            invariant
                reads@.len() == planes@.len(),
                forall|k: int| 0 <= k < reads@.len() ==> (#[trigger] reads@[k]).map.wf(),
                c <= reads@.len(),
                data@.len() == c,
                forall|k: int| 0 <= k < c ==> (#[trigger] data@[k])@.len() == window.0,
                forall|k: int, x: int| 0 <= k < c && 0 <= x < window.0 ==> (#[trigger] data@[k]@[x])@.len() == window.1,
                forall|k: int, x: int, y: int| 0 <= k < c && 0 <= x < window.0 && 0 <= y < window.1
                    ==> (#[trigger] data@[k]@[x]@[y]) == cell_value(reads@[k].map, planes@[k]@, x, y),
            decreases reads@.len() - c,
        {
            let p = fill_plane(&reads[c].map, &planes[c], window);
            data.push(p);
            c = c + 1;
        }
        Cube { shape: (reads.len(), window.0, window.1), data }
    }
}

} // verus!

verus! {

proof fn lemma_last_index_of_push(keys: Seq<Seq<char>>, x: Seq<char>, k: Seq<char>)
    ensures
        x != k ==> last_index_of(keys.push(x), k) == last_index_of(keys, k),
        x == k ==> last_index_of(keys.push(x), k) == keys.len(),
{
    let p = keys.push(x);
    crate::band::lemma_last_index_of_bounds(keys, k);
    crate::band::lemma_last_index_of_bounds(p, k);
    if x == k {
        crate::band::lemma_last_index_of_is(p, k, keys.len() as int);
    } else {
        let i = last_index_of(keys, k);
        if i >= 0 {
            assert(p[i] == keys[i]);
            assert forall|j: int| i < j < p.len() implies p[j] != k by {
                if j < keys.len() {
                    assert(p[j] == keys[j]);
                }
            }
            crate::band::lemma_last_index_of_is(p, k, i);
        } else {
            assert forall|j: int| 0 <= j < p.len() implies p[j] != k by {
                if j < keys.len() {
                    assert(p[j] == keys[j]);
                }
            }
        }
    }
}

/// Every name that occurs among the pairs is kept, and the band kept under it
/// has a pixel size no larger than that of any pair with that name.
pub proof fn lemma_kept_band_is_finest(pairs: Seq<(Seq<char>, BandInfo)>)
    ensures
        forall|j: int| 0 <= j < pairs.len() ==> {
            let f = fold_bands(pairs);
            let i = last_index_of(names_of(f), (#[trigger] pairs[j]).0);
            0 <= i < f.len() && f[i].1.m11() <= pairs[j].1.m11()
        },
    decreases pairs.len(),
{
    if pairs.len() > 0 {
        let prev = pairs.drop_last();
        lemma_kept_band_is_finest(prev);
        let fp = fold_bands(prev);
        let f = fold_bands(pairs);
        let (n, info) = (pairs.last().0, pairs.last().1);
        let i0 = last_index_of(names_of(fp), n);
        crate::band::lemma_last_index_of_bounds(names_of(fp), n);
        assert(f == insert_band(fp, n, info));
        assert forall|j: int| 0 <= j < pairs.len() implies {
            let i = last_index_of(names_of(f), (#[trigger] pairs[j]).0);
            0 <= i < f.len() && f[i].1.m11() <= pairs[j].1.m11()
        } by {
            let nj = pairs[j].0;
            if i0 < 0 {
                assert(f == fp.push((n, info)));
                assert(names_of(f) =~= names_of(fp).push(n));
                lemma_last_index_of_push(names_of(fp), n, nj);
                if j < pairs.len() - 1 {
                    assert(pairs[j] == prev[j]);
                    let ip = last_index_of(names_of(fp), nj);
                    crate::band::lemma_last_index_of_bounds(names_of(fp), nj);
                    if nj == n {
                        assert(names_of(fp)[ip] == n);
                    }
                    assert(f[ip] == fp[ip]);
                }
            } else if fp[i0].1.m11() < info.m11() {
                assert(f == fp);
                if j < pairs.len() - 1 {
                    assert(pairs[j] == prev[j]);
                }
            } else {
                assert(f == fp.update(i0, (n, info)));
                assert(names_of(f) =~= names_of(fp));
                if j < pairs.len() - 1 {
                    assert(pairs[j] == prev[j]);
                    let ip = last_index_of(names_of(fp), nj);
                    crate::band::lemma_last_index_of_bounds(names_of(fp), nj);
                    if ip != i0 {
                        assert(f[ip] == fp[ip]);
                    }
                }
            }
        }
    }
}

/// Two reads planned for the same name over the same window agree.
pub proof fn lemma_same_name_same_read(
    raster: Raster,
    name: Seq<char>,
    offset: (isize, isize),
    window: (usize, usize),
    a: BandRead,
    b: BandRead,
)
    requires
        raster.plans(name, offset, window, a),
        raster.plans(name, offset, window, b),
    ensures
        a.map == b.map,
        a.offset == b.offset,
        a.size == b.size,
        a.location.path@ == b.location.path@,
        a.location.index == b.location.index,
{
}

/// Planes assembled from equal reads of equal samples are equal.
pub proof fn lemma_same_read_same_plane(
    reads: Seq<BandRead>,
    planes: Seq<Vec<Vec<u16>>>,
    window: (usize, usize),
    cube: Cube,
    i: int,
    j: int,
)
    requires
        assembled(reads, planes, window, cube),
        0 <= i < reads.len(),
        0 <= j < reads.len(),
        reads[i].map == reads[j].map,
        planes[i]@ == planes[j]@,
    ensures
        forall|x: int, y: int| 0 <= x < window.0 && 0 <= y < window.1
            ==> cube.data@[i]@[x]@[y] == #[trigger] cube.data@[j]@[x]@[y],
{
    assert forall|x: int, y: int| 0 <= x < window.0 && 0 <= y < window.1
        implies cube.data@[i]@[x]@[y] == #[trigger] cube.data@[j]@[x]@[y] by {
        assert(cube.data@[i]@[x]@[y] == cell_value(reads[i].map, planes[i]@, x, y));
        assert(cube.data@[j]@[x]@[y] == cell_value(reads[j].map, planes[j]@, x, y));
    }
}

/// A band whose transform is the reference transform is read directly:
/// output `(x, y)` is the sample at `(x, y)` of the window read for it.
pub proof fn lemma_native_band_reads_directly(
    raster: Raster,
    name: Seq<char>,
    offset: (isize, isize),
    window: (usize, usize),
    rd: BandRead,
    plane: Seq<Vec<u16>>,
    x: int,
    y: int,
)
    requires
        raster.plans(name, offset, window, rd),
        raster.band_of(name).group.geo_transform == raster.highest_resolution_transform,
        0 <= x < window.0,
        0 <= y < window.1,
    ensures
        cell_value(rd.map, plane, x, y) == sample_at(plane, x, y),
{
    let g = raster.highest_resolution_transform;
    if g.det() == 0 {
        assert(pixel_map_spec(g, g) is None);
    }
    crate::transform::lemma_pixel_map_of_self_is_identity(g);
    let m = rd.map;
    assert(pixel_map_spec(g, g) == Some(m));
    assert(m.is_identity());
    assert(m.den > 0);
    let d = m.den as int;
    let (ux, uy, uc, vx, vy, vc) = (m.ux as int, m.uy as int, m.uc as int, m.vx as int, m.vy as int, m.vc as int);
    assert(ux * x + uy * y + uc == d * x) by (nonlinear_arith)
        requires
            ux == d && uy == 0 && uc == 0,
    ;
    assert(vx * x + vy * y + vc == d * y) by (nonlinear_arith)
        requires
            vx == 0 && vy == d && vc == 0,
    ;
    assert((d * x) / d == x) by (nonlinear_arith)
        requires
            d > 0,
    ;
    assert((d * y) / d == y) by (nonlinear_arith)
        requires
            d > 0,
    ;
    assert(d * x >= 0) by (nonlinear_arith)
        requires
            d > 0,
            x >= 0,
    ;
    assert(d * y >= 0) by (nonlinear_arith)
        requires
            d > 0,
            y >= 0,
    ;
}

/// Opening the same product twice gives the same bands, in the same order,
/// the same CRS and the same reference transform.
pub proof fn lemma_open_is_deterministic(
    path: Seq<char>,
    metadata: Seq<(Seq<char>, Seq<char>)>,
    pairs: Seq<(String, BandInfo)>,
    a: Raster,
    b: Raster,
)
    requires
        opened_from(path, metadata, pairs, a),
        opened_from(path, metadata, pairs, b),
    ensures
        a.bands_info@ == b.bands_info@,
        a.proj@ == b.proj@,
        a.highest_resolution_transform == b.highest_resolution_transform,
{
    let f = kept_bands(pairs);
    let ka = choose|k: int| is_first_finest(f, k) && f[k].1.group.geo_transform == a.highest_resolution_transform;
    let kb = choose|k: int| is_first_finest(f, k) && f[k].1.group.geo_transform == b.highest_resolution_transform;
    if ka < kb {
        assert(f[ka].1.m11() > f[kb].1.m11());
    } else if kb < ka {
        assert(f[kb].1.m11() > f[ka].1.m11());
    }
}

/// Two cubes assembled from the same reads, planes and window hold the same samples.
pub proof fn lemma_assembly_is_deterministic(
    reads: Seq<BandRead>,
    planes: Seq<Vec<Vec<u16>>>,
    window: (usize, usize),
    a: Cube,
    b: Cube,
)
    requires
        assembled(reads, planes, window, a),
        assembled(reads, planes, window, b),
    ensures
        a.shape == b.shape,
        forall|c: int, x: int, y: int| 0 <= c < reads.len() && 0 <= x < window.0 && 0 <= y < window.1
            ==> a.data@[c]@[x]@[y] == #[trigger] b.data@[c]@[x]@[y],
{
    assert forall|c: int, x: int, y: int| 0 <= c < reads.len() && 0 <= x < window.0 && 0 <= y < window.1
        implies a.data@[c]@[x]@[y] == #[trigger] b.data@[c]@[x]@[y] by {
        assert(a.data@[c]@[x]@[y] == cell_value(reads[c].map, planes[c]@, x, y));
    }
}

/// An empty output window gives one empty plane per requested band.
pub proof fn lemma_empty_window(reads: Seq<BandRead>, planes: Seq<Vec<Vec<u16>>>, cube: Cube)
    requires
        assembled(reads, planes, (0, 0), cube),
    ensures
        cube.shape == (reads.len() as usize, 0usize, 0usize),
        cube.data@.len() == cube.shape.0,
        forall|c: int| 0 <= c < cube.data@.len() ==> (#[trigger] cube.data@[c])@.len() == 0,
{
}

} // verus!
