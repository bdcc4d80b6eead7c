//! Bands, their groups and the name-to-band map.
use vstd::prelude::*;

use crate::error::RasterError;
use crate::text::{less_than, lemma_str_lt_irreflexive, lemma_str_lt_transitive, str_lt};
use crate::transform::GeoTransform;

verus! {

/// Index of the last key equal to `k`, or `-1` when there is none.
#[verifier::opaque]
pub open spec fn last_index_of(keys: Seq<Seq<char>>, k: Seq<char>) -> int {
    if exists|i: int| 0 <= i < keys.len() && keys[i] == k {
        choose|i: int|
            0 <= i < keys.len() && keys[i] == k && forall|j: int| i < j < keys.len() ==> keys[j] != k
    } else {
        -1
    }
}

/// A found index is in bounds and holds the key.
pub proof fn lemma_last_index_of_bounds(keys: Seq<Seq<char>>, k: Seq<char>)
    ensures
        -1 <= last_index_of(keys, k) < keys.len(),
        last_index_of(keys, k) >= 0 ==> keys[last_index_of(keys, k)] == k,
        last_index_of(keys, k) >= 0 ==> forall|j: int| last_index_of(keys, k) < j < keys.len() ==> keys[j] != k,
        last_index_of(keys, k) < 0 ==> forall|j: int| 0 <= j < keys.len() ==> keys[j] != k,
{
    reveal(last_index_of);
    if exists|i: int| 0 <= i < keys.len() && keys[i] == k {
        let w = choose|i: int| 0 <= i < keys.len() && keys[i] == k;
        lemma_last_match_exists(keys, k, w);
    }
}

proof fn lemma_last_match_exists(keys: Seq<Seq<char>>, k: Seq<char>, w: int)
    requires
        0 <= w < keys.len(),
        keys[w] == k,
    ensures
        exists|i: int| 0 <= i < keys.len() && keys[i] == k && forall|j: int| i < j < keys.len() ==> keys[j] != k,
    decreases keys.len() - w,
{
    if exists|j: int| w < j < keys.len() && keys[j] == k {
        let j = choose|j: int| w < j < keys.len() && keys[j] == k;
        lemma_last_match_exists(keys, k, j);
    } else {
        assert(forall|j: int| w < j < keys.len() ==> keys[j] != k);
    }
}

/// The last position holding `k` is `i`.
pub proof fn lemma_last_index_of_is(keys: Seq<Seq<char>>, k: Seq<char>, i: int)
    requires
        0 <= i < keys.len(),
        keys[i] == k,
        forall|j: int| i < j < keys.len() ==> keys[j] != k,
    ensures
        last_index_of(keys, k) == i,
{
    reveal(last_index_of);
    lemma_last_index_of_bounds(keys, k);
    let c = last_index_of(keys, k);
    assert(c >= 0);
    if c < i {
        assert(keys[i] != k);
    } else if c > i {
        assert(keys[c] != k);
    }
}

/// No string comes after a later one.
pub open spec fn no_inversion(s: Seq<Seq<char>>) -> bool {
    forall|a: int, b: int| 0 <= a < b < s.len() ==> !str_lt(#[trigger] s[b], #[trigger] s[a])
}

proof fn lemma_insert_keeps_order(s: Seq<Seq<char>>, p: int, x: Seq<char>)
    requires
        0 <= p <= s.len(),
        no_inversion(s),
        forall|a: int| 0 <= a < p ==> !str_lt(x, #[trigger] s[a]),
        p < s.len() ==> str_lt(x, s[p]),
    ensures
        no_inversion(s.insert(p, x)),
{
    let r = s.insert(p, x);
    assert forall|a: int, b: int| 0 <= a < b < r.len() implies !str_lt(#[trigger] r[b], #[trigger] r[a]) by {
        if a < p && b == p {
            assert(r[a] == s[a]);
        } else if a == p && b > p {
            assert(r[b] == s[b - 1]);
            if str_lt(r[b], x) {
                lemma_str_lt_transitive(r[b], x, s[p]);
                if b - 1 == p {
                    lemma_str_lt_irreflexive(s[p]);
                } else {
                    assert(!str_lt(s[b - 1], s[p]));
                }
            }
        } else if a < p && b > p {
            assert(r[a] == s[a] && r[b] == s[b - 1]);
        } else if a > p {
            assert(r[a] == s[a - 1] && r[b] == s[b - 1]);
        } else {
            assert(r[a] == s[a] && r[b] == s[b]);
        }
    }
}

/// Searches `keys` from the back for `k`.
fn find_last(keys: &Vec<&String>, k: &String) -> (r: Option<usize>)
    ensures
        r matches Some(i) ==> i < keys@.len(),
        r matches Some(i) ==> i == last_index_of(keys@.map_values(|s: &String| s@), k@),
        r is None ==> last_index_of(keys@.map_values(|s: &String| s@), k@) == -1,
{
    let ghost ks = keys@.map_values(|s: &String| s@);
    let mut i: usize = keys.len();
    while i > 0
        invariant
            i <= keys.len(),
            ks == keys@.map_values(|s: &String| s@),
            forall|j: int| i <= j < ks.len() ==> ks[j] != k@,
        decreases i,
    {
        i = i - 1;
        let same = String::eq(keys[i], k);
        assert(ks[i as int] == keys@[i as int]@);
        if same {
            proof {
                assert(ks[i as int] == k@);
                lemma_last_index_of_is(ks, k@, i as int);
            }
            return Some(i);
        }
    }
    proof {
        lemma_last_index_of_bounds(ks, k@);
    }
    None
}

/// Inserts `(k, v)` into a sequence of key-value pairs as a map does: the
/// value of an existing key is replaced, a new key goes last.
pub open spec fn insert_entry(s: Seq<(Seq<char>, Seq<char>)>, k: Seq<char>, v: Seq<char>) -> Seq<(Seq<char>, Seq<char>)> {
    let i = last_index_of(s.map_values(|e: (Seq<char>, Seq<char>)| e.0), k);
    if i < 0 {
        s.push((k, v))
    } else {
        s.update(i, (k, v))
    }
}

/// The value stored under `k`, if any.
pub open spec fn lookup_entry(s: Seq<(Seq<char>, Seq<char>)>, k: Seq<char>) -> Option<Seq<char>> {
    let i = last_index_of(s.map_values(|e: (Seq<char>, Seq<char>)| e.0), k);
    if i < 0 {
        None
    } else {
        Some(s[i].1)
    }
}

/// One metadata item of a dataset or band, as the raster library lists it.
#[derive(Debug)]
pub struct MetadataEntry {
    pub domain: String,
    pub key: String,
    pub value: String,
}

/// A mapping from string keys to string values.
#[derive(Debug)]
pub struct Metadata {
    entries: Vec<(String, String)>,
}

impl View for Metadata {
    type V = Seq<(Seq<char>, Seq<char>)>;

    closed spec fn view(&self) -> Self::V {
        self.entries@.map_values(|e: (String, String)| (e.0@, e.1@))
    }
}

impl Metadata {
    /// The empty mapping.
    pub fn new() -> (r: Metadata)
        ensures
            r@ == Seq::<(Seq<char>, Seq<char>)>::empty(),
    {
        let r = Metadata { entries: Vec::new() };
        assert(r@ =~= Seq::<(Seq<char>, Seq<char>)>::empty());
        r
    }

    fn keys(&self) -> (r: Vec<&String>)
        ensures
            r@.len() == self@.len(),
            r@.map_values(|s: &String| s@) == self@.map_values(|e: (Seq<char>, Seq<char>)| e.0),
    {
        let mut r: Vec<&String> = Vec::new();
        let mut i: usize = 0;
        while i < self.entries.len()
            invariant
                i <= self.entries.len(),
                r@.len() == i,
                forall|j: int| 0 <= j < i ==> r@[j]@ == self.entries@[j].0@,
            decreases self.entries.len() - i,
        {
            r.push(&self.entries[i].0);
            i = i + 1;
        }
        assert(r@.map_values(|s: &String| s@) =~= self@.map_values(|e: (Seq<char>, Seq<char>)| e.0));
        r
    }

    /// Stores `value` under `key`, replacing what was there.
    pub fn insert(&mut self, key: String, value: String)
        ensures
            final(self)@ == insert_entry(old(self)@, key@, value@),
    {
        let found = {
            let keys = self.keys();
            find_last(&keys, &key)
        };
        let ghost k = key@;
        let ghost v = value@;
        match found {
            Some(i) => {
                self.entries.set(i, (key, value));
                assert(self@ =~= old(self)@.update(i as int, (k, v)));
            },
            None => {
                self.entries.push((key, value));
                assert(self@ =~= old(self)@.push((k, v)));
            },
        }
    }

    /// The value stored under `key`.
    pub fn get(&self, key: &str) -> (r: Option<&String>)
        ensures
            r matches Some(v) ==> lookup_entry(self@, key@) == Some(v@),
            r is None ==> lookup_entry(self@, key@) is None,
    {
        let keys = self.keys();
        let key = key.to_owned();
        match find_last(&keys, &key) {
            Some(i) => Some(&self.entries[i].1),
            None => None,
        }
    }
}

/// What a subdataset's bands share: where it is, its CRS tag, its
/// geo-transform and its size in pixels `(width, height)`.
#[derive(Debug)]
pub struct BandGroup {
    pub gdal_dataset_path: String,
    pub crs: String,
    pub geo_transform: GeoTransform,
    pub extent: (usize, usize),
}

impl BandGroup {
    /// A group of the subdataset at `gdal_dataset_path`.
    pub fn new(gdal_dataset_path: String, crs: String, geo_transform: GeoTransform, extent: (usize, usize)) -> (r: BandGroup)
        ensures
            r.gdal_dataset_path == gdal_dataset_path,
            r.crs == crs,
            r.geo_transform == geo_transform,
            r.extent == extent,
    {
        BandGroup { gdal_dataset_path, crs, geo_transform, extent }
    }
}

/// Where a band's pixels are read from: a subdataset and a 1-based band index.
#[derive(Debug, PartialEq, Eq)]
pub struct BandLocation {
    pub path: String,
    pub index: usize,
}

/// One band: its 1-based index in its subdataset, the group it belongs to and
/// its metadata.
#[derive(Debug)]
pub struct BandInfo {
    pub index: usize,
    pub group: BandGroup,
    pub metadata: Metadata,
}

/// The saturating conversion of a pixel size to a byte.
pub open spec fn byte_of(v: int) -> int {
    if v < 0 {
        0
    } else if v > 255 {
        255
    } else {
        v
    }
}

impl BandInfo {
    /// The band `index` of `group`.
    pub fn new(group: BandGroup, index: usize, metadata: Metadata) -> (r: BandInfo)
        ensures
            r.group == group,
            r.index == index,
            r.metadata == metadata,
    {
        BandInfo { index, group, metadata }
    }

    /// The x-axis pixel size of the band's grid.
    pub open spec fn m11(&self) -> int {
        self.group.geo_transform.m11 as int
    }

    /// The pixel size as a byte: negative sizes give 0, sizes above 255 give 255.
    pub fn resolution(&self) -> (r: u8)
        ensures
            r as int == byte_of(self.m11()),
    {
        let m = self.group.geo_transform.m11;
        if m < 0 {
            0
        } else if m > 255 {
            255
        } else {
            m as u8
        }
    }

    /// Where this band's pixels are read from.
    pub fn reader(&self) -> (r: BandLocation)
        ensures
            r.path@ == self.group.gdal_dataset_path@,
            r.index == self.index,
    {
        BandLocation { path: self.group.gdal_dataset_path.clone(), index: self.index }
    }
}

/// The names of a sequence of named bands.
pub open spec fn names_of(s: Seq<(Seq<char>, BandInfo)>) -> Seq<Seq<char>> {
    s.map_values(|e: (Seq<char>, BandInfo)| e.0)
}

/// Adds a named band under the resolution rule: a band already held under
/// the name stays when its pixel size is strictly smaller; otherwise the new
/// one takes its place. A new name goes last.
pub open spec fn insert_band(s: Seq<(Seq<char>, BandInfo)>, name: Seq<char>, info: BandInfo) -> Seq<(Seq<char>, BandInfo)> {
    let i = last_index_of(names_of(s), name);
    if i < 0 {
        s.push((name, info))
    } else if s[i].1.m11() < info.m11() {
        s
    } else {
        s.update(i, (name, info))
    }
}

/// The bands that remain after adding each pair in turn.
pub open spec fn fold_bands(pairs: Seq<(Seq<char>, BandInfo)>) -> Seq<(Seq<char>, BandInfo)>
    decreases pairs.len(),
{
    if pairs.len() == 0 {
        Seq::empty()
    } else {
        insert_band(fold_bands(pairs.drop_last()), pairs.last().0, pairs.last().1)
    }
}

/// Named pairs as the spec functions above take them.
pub open spec fn pairs_view(pairs: Seq<(String, BandInfo)>) -> Seq<(Seq<char>, BandInfo)> {
    pairs.map_values(|e: (String, BandInfo)| (e.0@, e.1))
}

/// A map from band names to bands, in the order the names first came.
#[derive(Debug)]
pub struct Bands {
    entries: Vec<(String, BandInfo)>,
}

impl View for Bands {
    type V = Seq<(Seq<char>, BandInfo)>;

    closed spec fn view(&self) -> Self::V {
        pairs_view(self.entries@)
    }
}

impl Bands {
    /// No bands.
    pub fn new() -> (r: Bands)
        ensures
            r@ == Seq::<(Seq<char>, BandInfo)>::empty(),
    {
        let r = Bands { entries: Vec::new() };
        assert(r@ =~= Seq::<(Seq<char>, BandInfo)>::empty());
        r
    }

    /// The number of names held.
    pub fn len(&self) -> (r: usize)
        ensures
            r == self@.len(),
    {
        self.entries.len()
    }

    /// The name and band at position `i`.
    pub fn entry(&self, i: usize) -> (r: (&String, &BandInfo))
        requires
            i < self@.len(),
        ensures
            r.0@ == self@[i as int].0,
            *r.1 == self@[i as int].1,
    {
        (&self.entries[i].0, &self.entries[i].1)
    }

    fn names_ref(&self) -> (r: Vec<&String>)
        ensures
            r@.len() == self@.len(),
            r@.map_values(|s: &String| s@) == names_of(self@),
    {
        let mut r: Vec<&String> = Vec::new();
        let mut i: usize = 0;
        while i < self.entries.len()
            invariant
                i <= self.entries.len(),
                r@.len() == i,
                forall|j: int| 0 <= j < i ==> r@[j]@ == self.entries@[j].0@,
            decreases self.entries.len() - i,
        {
            r.push(&self.entries[i].0);
            i = i + 1;
        }
        assert(r@.map_values(|s: &String| s@) =~= names_of(self@));
        r
    }

    /// Position of `name`, if held.
    pub fn position(&self, name: &String) -> (r: Option<usize>)
        ensures
            r matches Some(i) ==> i < self@.len() && i == last_index_of(names_of(self@), name@),
            r is None ==> last_index_of(names_of(self@), name@) == -1,
    {
        let names = self.names_ref();
        find_last(&names, name)
    }

    /// The band held under `band_name`.
    pub fn get(&self, band_name: &String) -> (r: Result<&BandInfo, RasterError>)
        ensures
            r is Ok <==> last_index_of(names_of(self@), band_name@) >= 0,
            r matches Ok(b) ==> *b == self@[last_index_of(names_of(self@), band_name@)].1,
            r matches Err(e) ==> (e matches RasterError::BandNotFound(n) && n@ == band_name@),
    {
        match self.position(band_name) {
            Some(i) => Ok(&self.entries[i].1),
            None => Err(RasterError::BandNotFound(band_name.clone())),
        }
    }

    /// The names held, in ascending order.
    pub fn names(&self) -> (r: Vec<String>)
        ensures
            r@.len() == self@.len(),
            no_inversion(r@.map_values(|s: String| s@)),
            r@.map_values(|s: String| s@).to_multiset() == names_of(self@).to_multiset(),
    {
        let mut r: Vec<String> = Vec::new();
        let mut i: usize = 0;
        proof {
            assert(r@.map_values(|s: String| s@) =~= Seq::<Seq<char>>::empty());
            assert(names_of(self@).subrange(0, 0) =~= Seq::<Seq<char>>::empty());
        }
        while i < self.entries.len()
            invariant
                i <= self@.len(),
                self@.len() == self.entries@.len(),
                r@.len() == i,
                no_inversion(r@.map_values(|s: String| s@)),
                r@.map_values(|s: String| s@).to_multiset() == names_of(self@).subrange(0, i as int).to_multiset(),
            decreases self@.len() - i,
        {
            let name = self.entries[i].0.clone();
            let ghost rv = r@.map_values(|s: String| s@);
            let mut p: usize = 0;
            while p < r.len() && !less_than(name.as_str(), r[p].as_str())
                invariant
                    p <= r@.len(),
                    rv == r@.map_values(|s: String| s@),
                    forall|a: int| 0 <= a < p ==> !str_lt(name@, #[trigger] rv[a]),
                decreases r@.len() - p,
            {
                p = p + 1;
            }
            r.insert(p, name);
            proof {
                lemma_insert_keeps_order(rv, p as int, name@);
                assert(r@.map_values(|s: String| s@) =~= rv.insert(p as int, name@));
                vstd::seq_lib::to_multiset_insert(rv, p as int, name@);
                let ns = names_of(self@);
                assert(ns.subrange(0, i + 1) =~= ns.subrange(0, i as int).push(name@));
                vstd::seq_lib::to_multiset_build(ns.subrange(0, i as int), name@);
            }
            i = i + 1;
        }
        assert(names_of(self@).subrange(0, i as int) =~= names_of(self@));
        r
    }

    /// Adds a band under the resolution rule of [`insert_band`].
    pub fn insert(self, band_name: String, band_info: BandInfo) -> (r: Bands)
        ensures
            r@ == insert_band(self@, band_name@, band_info),
    {
        let mut this = self;
        let ghost s = this@;
        let ghost n = band_name@;
        let ghost info = band_info;
        match this.position(&band_name) {
            Some(i) => {
                if this.entries[i].1.group.geo_transform.m11 < band_info.group.geo_transform.m11 {
                    this
                } else {
                    this.entries.set(i, (band_name, band_info));
                    assert(this@ =~= s.update(i as int, (n, info)));
                    this
                }
            },
            None => {
                this.entries.push((band_name, band_info));
                assert(this@ =~= s.push((n, info)));
                this
            },
        }
    }

    /// Folds named bands, in order, into a map under the resolution rule.
    pub fn from_pairs(pairs: Vec<(String, BandInfo)>) -> (r: Bands)
        ensures
            r@ == fold_bands(pairs_view(pairs@)),
    {
        let ghost all = pairs_view(pairs@);
        let mut rest = pairs;
        let mut bands = Bands::new();
        let ghost mut done: int = 0;
        while rest.len() > 0
            invariant
                0 <= done <= all.len(),
                done + rest@.len() == all.len(),
                pairs_view(rest@) == all.subrange(done, all.len() as int),
                bands@ == fold_bands(all.subrange(0, done)),
            decreases rest.len(),
        {
            let ghost r0 = rest@;
            let (name, info) = rest.remove(0);
            proof {
                assert(pairs_view(r0)[0] == (name@, info));
                assert(all.subrange(done, all.len() as int)[0] == all[done]);
                assert(all[done] == (name@, info));
                assert(all.subrange(0, done + 1).drop_last() =~= all.subrange(0, done));
                assert forall|k: int| 0 <= k < rest@.len() implies pairs_view(rest@)[k] == all[done + 1 + k] by {
                    assert(rest@[k] == r0[k + 1]);
                    assert(pairs_view(r0)[k + 1] == all.subrange(done, all.len() as int)[k + 1]);
                }
                assert(pairs_view(rest@) =~= all.subrange(done + 1, all.len() as int));
            }
            bands = bands.insert(name, info);
            proof {
                done = done + 1;
            }
        }
        assert(all.subrange(0, done) =~= all);
        bands
    }
}

} // verus!
