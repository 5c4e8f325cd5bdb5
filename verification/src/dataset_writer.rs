//! The output dataset: its URI template, codec, tile space, and the
//! container format tiles are written in.

use vstd::prelude::*;
use crate::math::Coordinate;
use crate::math::TileCoordinate3;
use crate::tilespace::Tilespace;
use crate::tilespace::TileURIProvider;
use crate::tilespace::format_tile_string;
use crate::image::ImageCodec;
use crate::image::ImageFiletype;
use crate::uri_format::template_valid;

verus! {

/// The dataset being produced: where its tiles go, how they are encoded,
/// and its grid.
pub struct DatasetWriter {
    pub tile_uri_format: String,
    pub codec: ImageCodec,
    pub tilespace: Tilespace,
    pub filetype: ImageFiletype,
}

impl TileURIProvider for DatasetWriter {
    open spec fn uri_template(&self) -> Seq<char> {
        self.tile_uri_format@
    }

    open spec fn uri_wf(&self) -> bool {
        template_valid(self.tile_uri_format@)
    }

    fn get_resource_uri(&self, coord: TileCoordinate3) -> (r: String) {
        match format_tile_string(self.tile_uri_format.as_str(), coord) {
            Ok(s) => s,
            Err(e) => {
                proof {
                    assert(false);
                }
                e
            },
        }
    }
}

impl DatasetWriter {
    /// The template is validated and the grid matches the codec with
    /// offset zero.
    pub open spec fn wf(self) -> bool {
        &&& template_valid(self.tile_uri_format@)
        &&& self.codec.format.valid()
        &&& self.codec.format.spec_raw_size() <= usize::MAX
        &&& self.tilespace.wf()
        &&& self.tilespace.size == self.codec.format.size
        &&& self.tilespace.offset == (Coordinate { x: 0, y: 0 })
    }

    /// Build a writer: the URI template is validated once, fatally; the
    /// tile space is the codec's size with offset zero.
    pub fn create(tile_uri_format: &str, codec: ImageCodec, out_filetype: ImageFiletype) -> (r:
        Result<DatasetWriter, String>)
        requires
            codec.format.valid(),
            codec.format.size.x > 0,
            codec.format.size.y > 0,
            codec.format.spec_raw_size() <= usize::MAX,
        ensures
            r is Ok <==> template_valid(tile_uri_format@),
            r matches Ok(dw) ==> {
                &&& dw.wf()
                &&& dw.tile_uri_format@ == tile_uri_format@
                &&& dw.codec == codec
                &&& dw.tilespace == (Tilespace {
                    size: codec.format.size,
                    offset: Coordinate { x: 0, y: 0 },
                })
                &&& dw.filetype == out_filetype
            },
    {
        // validate that the tile format can produce a valid result
        match format_tile_string(tile_uri_format, TileCoordinate3 { x: 0, y: 0, z: 0 }) {
            Err(e) => Err(e),
            Ok(_) => Ok(
                DatasetWriter {
                    tile_uri_format: String::from_str(tile_uri_format),
                    codec,
                    tilespace: Tilespace {
                        size: codec.format.size,
                        offset: Coordinate { x: 0, y: 0 },
                    },
                    filetype: out_filetype,
                },
            ),
        }
    }
}

} // verus!
