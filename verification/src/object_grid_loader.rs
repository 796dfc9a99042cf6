//! Turning a raster image into an obstacle grid.
//!
//! A single-channel raster maps one-to-one onto grid cells: the image
//! dimensions become the grid extent and a luminance sample of zero marks
//! the cell as blocked.  The byte-stream decoding itself is delegated to
//! the image crate behind a trusted boundary; everything after the decode
//! is verified.

use vstd::prelude::*;

use crate::grid::lemma_grid_index_bounds;
use crate::grid::NavigableGrid;
use crate::grid::MAX_GRID_SIDE;
use crate::utility_types::Num2D;

verus! {

/// What the image crate decodes a raster byte stream to, read as
/// luminance: nothing where decoding fails, else the width, the height and
/// the row-major luminance samples.  The decode depends on the bytes alone.
pub uninterp spec fn luma_decode_of(bytes: Seq<u8>) -> Option<(nat, nat, Seq<u8>)>;

/// Why a raster byte stream yielded no grid.
#[derive(Clone, Copy, Debug, PartialEq, Eq, Structural)]
pub enum RasterError {
    /// The bytes are not a decodable image.
    DecodeFailure,
    /// The image is wider or taller than the largest accepted grid.
    DimensionsTooLarge,
}

#[verifier::external_type_specification]
#[verifier::external_body]
pub struct ExImageError(image::ImageError);

/// Relies on `image::load_from_memory` and
/// `image::DynamicImage::into_luma8`: decoding is a pure function of the
/// bytes, and the raw container behind a one-channel `ImageBuffer` holds at
/// least `width * height` samples, row-major.
#[verifier::external_body]
fn decode_luma(bytes: &Vec<u8>) -> (r: Result<(u32, u32, Vec<u8>), image::ImageError>)
    ensures
        match r {
            Ok(t) => luma_decode_of(bytes@) matches Some(m) && m.0 == t.0 && m.1 == t.1 && m.2
                == t.2@ && t.2@.len() >= m.0 * m.1,
            Err(_) => luma_decode_of(bytes@) is None,
        },
{
    let img = image::load_from_memory(bytes.as_slice())?;
    let luma = img.into_luma8();
    let w = luma.width();
    let h = luma.height();
    Ok((w, h, luma.into_raw()))
}

/// Builds the navigability matrix from a decoded luminance matrix: cell
/// `(x, y)` is traversable exactly when its sample is not zero.
pub fn make_object_grid(width: usize, height: usize, pixels: &Vec<u8>) -> (r: NavigableGrid)
    requires
        width <= MAX_GRID_SIDE,
        height <= MAX_GRID_SIDE,
        pixels@.len() >= width * height,
    ensures
        r.wf(),
        r.width == width,
        r.height == height,
        forall|p: Num2D|
            r.in_bounds(p) ==> (#[trigger] r.free(p) <==> pixels@[p.y as int * width as int
                + p.x as int] != 0),
{
    proof {
        vstd::arithmetic::mul::lemma_mul_upper_bound(
            width as int,
            MAX_GRID_SIDE as int,
            height as int,
            MAX_GRID_SIDE as int,
        );
    }
    let total: usize = width * height;
    let mut cells: Vec<bool> = Vec::new();
    let mut i: usize = 0;
    while i < total
        invariant
            i <= total,
            total == width * height,
            total <= pixels@.len(),
            cells@.len() == i,
            forall|j: int| 0 <= j < i ==> (#[trigger] cells@[j] <==> pixels@[j] != 0),
        decreases total - i,
    {
        cells.push(pixels[i] != 0);
        i = i + 1;
    }
    let grid = NavigableGrid { width, height, cells };
    proof {
        assert forall|p: Num2D|
            grid.in_bounds(p) implies (#[trigger] grid.free(p) <==> pixels@[p.y as int
            * width as int + p.x as int] != 0) by {
            lemma_grid_index_bounds(width as int, height as int, p.x as int, p.y as int);
        }
    }
    grid
}

/// Decodes a raster byte stream and converts it to an obstacle grid, one
/// cell per pixel, blocked where the luminance is zero.  Undecodable bytes
/// and images beyond the accepted grid extent are rejected.
pub fn read_raster(bytes: &Vec<u8>) -> (r: Result<NavigableGrid, RasterError>)
    ensures
        luma_decode_of(bytes@) is None ==> r == Err::<NavigableGrid, RasterError>(
            RasterError::DecodeFailure,
        ),
        luma_decode_of(bytes@) matches Some(m) ==> {
            if m.0 <= MAX_GRID_SIDE && m.1 <= MAX_GRID_SIDE {
                r matches Ok(g) && g.wf() && g.width == m.0 && g.height == m.1 && forall|p: Num2D|
                    g.in_bounds(p) ==> (#[trigger] g.free(p) <==> m.2[p.y as int * m.0 as int
                        + p.x as int] != 0)
            } else {
                r == Err::<NavigableGrid, RasterError>(RasterError::DimensionsTooLarge)
            }
        },
{
    match decode_luma(bytes) {
        Err(_) => Err(RasterError::DecodeFailure),
        Ok((w, h, pixels)) => {
            if w <= MAX_GRID_SIDE as u32 && h <= MAX_GRID_SIDE as u32 {
                Ok(make_object_grid(w as usize, h as usize, &pixels))
            } else {
                Err(RasterError::DimensionsTooLarge)
            }
        },
    }
}

} // verus!
