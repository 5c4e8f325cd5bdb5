//! The source dataset: its URI template, codec, tile space, manifest of
//! available tiles, and the cache of fetched tile buffers.

use vstd::prelude::*;
use vstd::arithmetic::mul::*;
use crate::math::Coordinate;
use crate::math::TileCoordinate3;
use crate::tilespace::Tilespace;
use crate::tilespace::TileURIProvider;
use crate::tilespace::format_tile_string;
use crate::dataset_cache::DatasetCache;
use crate::dataset_cache::DatasetCacheResult;
use crate::dataset_cache::spec_find;
use crate::image::ImageCodec;
use crate::image::ImageFiletype;
use crate::image::ImageOwned;
use crate::uri_format::spec_format_tile;
use crate::uri_format::template_valid;

verus! {

/// What a probe for a tile found: the tile is not in the manifest, or its
/// bytes are already resident, or they must be fetched from the returned
/// resource identifier.
pub enum ProbeResult {
    NotNeeded,
    Resident(usize),
    Missing(String),
}

/// A source dataset: where its tiles live, how they decode, its grid, the
/// tiles it actually has, and a cache of raw tile buffers.
pub struct DatasetProvider {
    pub tile_uri_format: String,
    pub codec: ImageCodec,
    pub tilespace: Tilespace,
    pub manifest: Vec<TileCoordinate3>,
    pub cache: DatasetCache,
}

/// The resource identifier of the tile at `coord` under a template.
pub open spec fn spec_uri(template: Seq<char>, coord: TileCoordinate3) -> Seq<char> {
    spec_format_tile(template, coord.x as int, coord.y as int, coord.z as int)->Some_0
}

/// Whether the manifest sequence lists `coord`.
pub open spec fn manifest_lists(m: Seq<TileCoordinate3>, coord: TileCoordinate3) -> bool {
    m.contains(coord)
}

/// Linear scan of a manifest for one coordinate.
pub fn manifest_has(m: &Vec<TileCoordinate3>, coord: TileCoordinate3) -> (r: bool)
    ensures
        r == manifest_lists(m@, coord),
{
    let mut i: usize = 0;
    while i < m.len()
        invariant
            0 <= i <= m.len(),
            forall|j: int| 0 <= j < i ==> m@[j] != coord,
        decreases m.len() - i,
    {
        if m[i].x == coord.x && m[i].y == coord.y && m[i].z == coord.z {
            proof {
                assert(m@[i as int] == coord);
            }
            return true;
        }
        i = i + 1;
    }
    proof {
        if m@.contains(coord) {
            let j = choose|j: int| 0 <= j < m@.len() && m@[j] == coord;
            assert(m@[j] != coord);
        }
    }
    false
}

impl TileURIProvider for DatasetProvider {
    open spec fn uri_template(&self) -> Seq<char> {
        self.tile_uri_format@
    }

    open spec fn uri_wf(&self) -> bool {
        template_valid(self.tile_uri_format@)
    }

    fn get_resource_uri(&self, coord: TileCoordinate3) -> (r: String) {
        match format_tile_string(self.tile_uri_format.as_str(), coord) {
            Ok(s) => s,
            Err(e) => {
                proof {
                    assert(false);
                }
                e
            },
        }
    }
}

impl DatasetProvider {
    /// The number of cache slots a provider allocates.
    pub open spec fn cache_slot_count() -> int {
        16
    }

    /// The template is validated, the grid matches the codec with offset
    /// zero, and the cache holds buffers of exactly one raw tile.
    pub open spec fn wf(self) -> bool {
        &&& template_valid(self.tile_uri_format@)
        &&& self.codec.format.valid()
        &&& self.codec.format.spec_raw_size() <= usize::MAX
        &&& self.tilespace.wf()
        &&& self.tilespace.size == self.codec.format.size
        &&& self.tilespace.offset == (Coordinate { x: 0, y: 0 })
        &&& self.cache.wf()
        &&& self.cache.size == self.codec.format.spec_raw_size()
        &&& self.cache.slots.len() == Self::cache_slot_count()
    }

    /// Build a provider: the URI template is validated once, fatally; the
    /// tile space is the codec's size with offset zero; the cache holds a
    /// fixed number of raw tile buffers.
    pub fn create(tile_uri_format: &str, codec: ImageCodec, manifest: Vec<TileCoordinate3>) -> (r:
        Result<DatasetProvider, String>)
        requires
            codec.format.valid(),
            codec.format.size.x > 0,
            codec.format.size.y > 0,
            codec.format.spec_raw_size() * Self::cache_slot_count() <= usize::MAX,
        ensures
            r is Ok <==> template_valid(tile_uri_format@),
            r matches Ok(dp) ==> {
                &&& dp.wf()
                &&& dp.tile_uri_format@ == tile_uri_format@
                &&& dp.codec == codec
                &&& dp.tilespace == (Tilespace {
                    size: codec.format.size,
                    offset: Coordinate { x: 0, y: 0 },
                })
                &&& dp.manifest == manifest
            },
    {
        // validate that the tile format can produce a valid result
        match format_tile_string(tile_uri_format, TileCoordinate3 { x: 0, y: 0, z: 0 }) {
            Err(e) => Err(e),
            Ok(_) => {
                proof {
                    lemma_mul_nonnegative(
                        codec.format.spec_raw_size(),
                        Self::cache_slot_count(),
                    );
                    lemma_mul_is_commutative(
                        codec.format.spec_raw_size(),
                        Self::cache_slot_count(),
                    );
                }
                let size = codec.format.raw_size();
                let cache = DatasetCache::new(size, 16);
                Ok(
                    DatasetProvider {
                        tile_uri_format: String::from_str(tile_uri_format),
                        codec,
                        tilespace: Tilespace {
                            size: codec.format.size,
                            offset: Coordinate { x: 0, y: 0 },
                        },
                        manifest,
                        cache,
                    },
                )
            },
        }
    }

    /// Decide what a tile needs: nothing when it is not in the manifest,
    /// nothing but a stamp refresh when already resident, otherwise the
    /// URI to fetch.  Only a hit mutates the cache (its access stamp).
    pub fn cache_probe(&mut self, coord: TileCoordinate3) -> (r: ProbeResult)
        requires
            old(self).wf(),
            old(self).cache.time < u64::MAX,
        ensures
            final(self).wf(),
            final(self).tile_uri_format == old(self).tile_uri_format,
            final(self).codec == old(self).codec,
            final(self).tilespace == old(self).tilespace,
            final(self).manifest == old(self).manifest,
            final(self).cache.size == old(self).cache.size,
            final(self).cache.data == old(self).cache.data,
            !manifest_lists(old(self).manifest@, coord) ==> r is NotNeeded && *final(self) == *old(
                self,
            ),
            manifest_lists(old(self).manifest@, coord) ==> {
                let uri = spec_uri(old(self).tile_uri_format@, coord);
                if spec_find(old(self).cache.slots@, uri) >= 0 {
                    &&& r == ProbeResult::Resident(
                        old(self).cache.slots@[spec_find(old(self).cache.slots@, uri)].offset,
                    )
                    &&& final(self).cache.time == old(self).cache.time + 1
                } else {
                    r matches ProbeResult::Missing(u) && u@ == uri && *final(self) == *old(self)
                }
            },
    {
        if !manifest_has(&self.manifest, coord) {
            return ProbeResult::NotNeeded;
        }
        let uri = self.get_resource_uri(coord);
        proof {
            crate::dataset_cache::lemma_slot_find_props(self.cache.slots@, uri@, 0);
        }
        match self.cache.access(uri.as_str()) {
            Some(offset) => ProbeResult::Resident(offset),
            None => ProbeResult::Missing(uri),
        }
    }

    /// Install freshly fetched tile bytes: decoded (raw container) bytes
    /// must be exactly one raw tile; the least-recently-used slot is
    /// rebound to the tile's URI and overwritten.  A wrong-sized payload
    /// is rejected and nothing changes but a possible stamp refresh.
    pub fn store_fetched(&mut self, coord: TileCoordinate3, bytes: &Vec<u8>) -> (r: Result<
        (),
        String,
    >)
        requires
            old(self).wf(),
            old(self).cache.time < u64::MAX,
        ensures
            final(self).wf(),
            final(self).tile_uri_format == old(self).tile_uri_format,
            final(self).codec == old(self).codec,
            final(self).tilespace == old(self).tilespace,
            final(self).manifest == old(self).manifest,
            r is Ok <==> bytes.len() == old(self).codec.format.spec_raw_size(),
            r is Ok ==> {
                let uri = spec_uri(old(self).tile_uri_format@, coord);
                let f = spec_find(final(self).cache.slots@, uri);
                &&& f >= 0
                &&& final(self).cache.slot_bytes_at(f) == bytes@
            },
            r is Err ==> final(self).cache.data == old(self).cache.data,
    {
        let expected = self.codec.format.raw_size();
        if bytes.len() != expected {
            return Err(String::from_str("image incorrectly encoded"));
        }
        let uri = self.get_resource_uri(coord);
        let offset = match self.cache.access_mut(uri.as_str()) {
            DatasetCacheResult::Valid(offset) => offset,
            DatasetCacheResult::Invalid(offset) => offset,
        };
        let ghost f = spec_find(self.cache.slots@, uri@);
        proof {
            crate::dataset_cache::lemma_slot_find_props(old(self).cache.slots@, uri@, 0);
            crate::dataset_cache::lemma_slot_find_props(self.cache.slots@, uri@, 0);
            if spec_find(old(self).cache.slots@, uri@) >= 0 {
                let fold = spec_find(old(self).cache.slots@, uri@);
                assert(self.cache.slots@[fold].key@ == uri@);
                crate::dataset_cache::lemma_slot_find_at_known(self.cache.slots@, uri@, fold);
                assert(f == fold);
            } else {
                let m = crate::dataset_cache::spec_lru(old(self).cache.slots@);
                crate::dataset_cache::lemma_lru_best_min(
                    old(self).cache.slots@,
                    old(self).cache.slots@.len() as int,
                );
                assert(self.cache.slots@[m].key@ == uri@);
                crate::dataset_cache::lemma_slot_find_at_known(self.cache.slots@, uri@, m);
                assert(f == m);
            }
            assert(0 <= f < self.cache.slots.len());
            assert(self.cache.slots@[f].offset == offset);
            assert(offset == f * self.cache.size);
            lemma_mul_is_distributive_add_other_way(self.cache.size as int, f, 1);
            lemma_mul_inequality(f + 1, self.cache.slots.len() as int, self.cache.size as int);
            lemma_mul_is_commutative(self.cache.slots.len() as int, self.cache.size as int);
        }
        self.cache.fill_slot(offset, bytes);
        proof {
            assert(final(self).cache.slot_bytes_at(f) =~= bytes@);
        }
        Ok(())
    }

    /// The decoded bytes of `coord`'s tile if they are resident, as an
    /// image of the provider's format; refreshes the tile's access stamp.
    pub fn access_cached_resource(&mut self, coord: TileCoordinate3) -> (r: Option<ImageOwned>)
        requires
            old(self).wf(),
            old(self).cache.time < u64::MAX,
        ensures
            final(self).wf(),
            final(self).tile_uri_format == old(self).tile_uri_format,
            final(self).codec == old(self).codec,
            final(self).tilespace == old(self).tilespace,
            final(self).manifest == old(self).manifest,
            final(self).cache.data == old(self).cache.data,
            ({
                let uri = spec_uri(old(self).tile_uri_format@, coord);
                let f = spec_find(old(self).cache.slots@, uri);
                if f >= 0 {
                    r matches Some(img) && img.format == old(self).codec.format && img.wf()
                        && img.data@ == old(self).cache.slot_bytes_at(f)
                } else {
                    r is None && *final(self) == *old(self)
                }
            }),
    {
        let uri = self.get_resource_uri(coord);
        match self.cache.access(uri.as_str()) {
            Some(offset) => {
                let ghost f = spec_find(old(self).cache.slots@, uri@);
                proof {
                    crate::dataset_cache::lemma_slot_find_props(old(self).cache.slots@, uri@, 0);
                    assert(0 <= f < old(self).cache.slots.len());
                    lemma_mul_is_distributive_add_other_way(self.cache.size as int, f, 1);
                    lemma_mul_inequality(
                        f + 1,
                        self.cache.slots.len() as int,
                        self.cache.size as int,
                    );
                    lemma_mul_is_commutative(
                        self.cache.slots.len() as int,
                        self.cache.size as int,
                    );
                }
                let data = self.cache.read_slot(offset);
                Some(ImageOwned { format: self.codec.format, data })
            },
            None => None,
        }
    }
}

} // verus!
