//! Rendering a tile grid into an RGB raster and encoding it as PNG.
use vstd::prelude::*;
use crate::palette::{black, ColorTable, Rgb, TilesetRegistry};
use crate::style::STYLE_COUNT;
use image::ImageEncoder;

verus! {

/// The error of `render_minimap`: the PNG encoder refused the raster.
#[derive(Clone, Copy, Debug, PartialEq, Eq, Structural)]
pub enum RenderError {
    Encode,
}

/// The tile at row-major position `p`; positions past the grid's end hold tile 0.
pub open spec fn tile_at(grid: Seq<u16>, p: int) -> u16 {
    if p < grid.len() {
        grid[p]
    } else {
        0
    }
}

/// The color of `id` in `table`, black where the table has none.
pub open spec fn color_of(table: Map<u16, Rgb>, id: u16) -> Rgb {
    if table.contains_key(id) {
        table[id]
    } else {
        black()
    }
}

/// Channel `k` (0 red, 1 green, 2 blue) of `c`.
pub open spec fn channel(c: Rgb, k: int) -> u8 {
    if k == 0 {
        c.r
    } else if k == 1 {
        c.g
    } else {
        c.b
    }
}

/// The `width * height` raster of `grid` under `table`, as interleaved RGB
/// bytes in row-major order.
pub open spec fn minimap_pixels(grid: Seq<u16>, width: nat, height: nat, table: Map<u16, Rgb>) -> Seq<u8> {
    Seq::new(3 * (width * height), |i: int| channel(color_of(table, tile_at(grid, i / 3)), i % 3))
}

/// What the PNG encoder produces for an 8-bit RGB raster of the given size:
/// `None` where it refuses it.
pub uninterp spec fn png_rgb8(pixels: Seq<u8>, width: u32, height: u32) -> Option<Seq<u8>>;

/// Relies on image's `PngEncoder::write_image` with `ColorType::Rgb8`: it
/// writes the PNG of the raster into a fresh buffer. It panics unless the
/// buffer holds exactly three bytes per pixel; the png encoder refuses only a
/// zero width or height, and writing into a `Vec` does not fail.
#[verifier::external_body]
fn encode_png(pixels: &[u8], width: u32, height: u32) -> (r: Result<Vec<u8>, RenderError>)
    requires
        pixels@.len() == 3 * (width * height),
    ensures
        match r {
            Ok(png) => png_rgb8(pixels@, width, height) == Some(png@),
            Err(_) => png_rgb8(pixels@, width, height) is None,
        },
        width > 0 && height > 0 ==> r is Ok,
{
    let mut png = Vec::<u8>::new();
    match image::codecs::png::PngEncoder::new(&mut png).write_image(pixels, width, height, image::ColorType::Rgb8) {
        Ok(()) => Ok(png),
        Err(_) => Err(RenderError::Encode),
    }
}

/// The interleaved RGB bytes of the `width * height` raster of `grid`:
/// pixel `p` takes the color of `grid[p]` (of tile 0 past the grid's end),
/// black where `table` has no color for that tile.
pub fn render_pixels(grid: &[u16], width: usize, height: usize, table: &ColorTable) -> (out: Vec<u8>)
    requires
        3 * (width * height) <= usize::MAX,
    ensures
        out@ == minimap_pixels(grid@, width as nat, height as nat, table@),
{
    let count: usize = width * height;
    let mut out: Vec<u8> = Vec::with_capacity(3 * count);
    let mut p: usize = 0;
    while p < count
        invariant
            count == width * height,
            3 * count <= usize::MAX,
            p <= count,
            out@.len() == 3 * p,
            forall|i: int| 0 <= i < 3 * p ==> #[trigger] out@[i] == channel(color_of(table@, tile_at(grid@, i / 3)), i % 3),
        decreases count - p,
    {
        let id: u16 = if p < grid.len() { grid[p] } else { 0 };
        let color = match table.get(id) {
            Some(c) => c,
            None => Rgb { r: 0, g: 0, b: 0 },
        };
        out.push(color.r);
        out.push(color.g);
        out.push(color.b);
        assert forall|i: int| 3 * p <= i < 3 * p + 3 implies #[trigger] out@[i] == channel(color_of(table@, tile_at(grid@, i / 3)), i % 3) by {
            assert(i / 3 == p as int);
        }
        p = p + 1;
    }
    assert(out@ =~= minimap_pixels(grid@, width as nat, height as nat, table@));
    out
}

/// The outcome that `render_minimap` owes for these arguments.
pub open spec fn render_outcome(
    grid: Seq<u16>,
    width: usize,
    height: usize,
    era: u16,
    tables: Seq<Map<u16, Rgb>>,
    r: Result<Vec<u8>, RenderError>,
) -> bool {
    let pixels = minimap_pixels(grid, width as nat, height as nat, tables[(era % STYLE_COUNT) as int]);
    match r {
        Ok(png) => png_rgb8(pixels, width as u32, height as u32) == Some(png@),
        Err(e) => e == RenderError::Encode && png_rgb8(pixels, width as u32, height as u32) is None,
    }
}

/// Renders a `width * height` tile grid with the colors of the style that
/// `era` selects and returns the PNG (8-bit RGB, no alpha). Encoding fails
/// only for an empty raster.
pub fn render_minimap(
    mtxm: &[u16],
    width: usize,
    height: usize,
    era: u16,
    tilesets: &TilesetRegistry,
) -> (r: Result<Vec<u8>, RenderError>)
    requires
        tilesets.wf(),
        width <= u32::MAX,
        height <= u32::MAX,
        3 * (width * height) <= usize::MAX,
    ensures
        render_outcome(mtxm@, width, height, era, tilesets@, r),
        width > 0 && height > 0 ==> r is Ok,
{
    let table = tilesets.table_for_era(era);
    let pixels = render_pixels(mtxm, width, height, table);
    encode_png(pixels.as_slice(), width as u32, height as u32)
}

/// Rendering is deterministic: any two outcomes that `render_minimap` may
/// return for the same arguments are the same, byte for byte.
pub proof fn lemma_render_deterministic(
    grid: Seq<u16>,
    width: usize,
    height: usize,
    era: u16,
    tables: Seq<Map<u16, Rgb>>,
    r1: Result<Vec<u8>, RenderError>,
    r2: Result<Vec<u8>, RenderError>,
)
    requires
        render_outcome(grid, width, height, era, tables, r1),
        render_outcome(grid, width, height, era, tables, r2),
    ensures
        r1 is Ok <==> r2 is Ok,
        r1 matches Ok(a) ==> r2 matches Ok(b) && a@ == b@,
        r1 matches Err(e1) ==> r2 matches Err(e2) && e1 == e2,
{
}

/// A pixel whose tile has no color in the active table is black.
pub proof fn lemma_missing_tile_is_black(grid: Seq<u16>, width: nat, height: nat, table: Map<u16, Rgb>, p: int)
    requires
        0 <= p < width * height,
        !table.contains_key(tile_at(grid, p)),
    ensures
        minimap_pixels(grid, width, height, table)[3 * p] == 0,
        minimap_pixels(grid, width, height, table)[3 * p + 1] == 0,
        minimap_pixels(grid, width, height, table)[3 * p + 2] == 0,
{
    assert((3 * p) / 3 == p && (3 * p) % 3 == 0);
    assert((3 * p + 1) / 3 == p && (3 * p + 1) % 3 == 1);
    assert((3 * p + 2) / 3 == p && (3 * p + 2) % 3 == 2);
}

/// A pixel past the end of a short grid takes the color of tile 0
/// (black where the table has none for it).
pub proof fn lemma_short_grid_renders_tile_zero(grid: Seq<u16>, width: nat, height: nat, table: Map<u16, Rgb>, p: int)
    requires
        grid.len() <= p < width * height,
    ensures
        minimap_pixels(grid, width, height, table)[3 * p] == color_of(table, 0).r,
        minimap_pixels(grid, width, height, table)[3 * p + 1] == color_of(table, 0).g,
        minimap_pixels(grid, width, height, table)[3 * p + 2] == color_of(table, 0).b,
{
    assert((3 * p) / 3 == p && (3 * p) % 3 == 0);
    assert((3 * p + 1) / 3 == p && (3 * p + 1) % 3 == 1);
    assert((3 * p + 2) / 3 == p && (3 * p + 2) % 3 == 2);
}

/// The tile identifiers stored in `bytes` as little-endian 16-bit integers;
/// a trailing odd byte is ignored.
pub open spec fn tiles_le(bytes: Seq<u8>) -> Seq<u16> {
    Seq::new(bytes.len() / 2, |i: int| (bytes[2 * i] + 256 * bytes[2 * i + 1]) as u16)
}

/// Decodes a raw tile grid stored as little-endian 16-bit integers.
pub fn tiles_from_le_bytes(bytes: &[u8]) -> (r: Vec<u16>)
    ensures
        r@ == tiles_le(bytes@),
{
    let n: usize = bytes.len() / 2;
    assert(n <= usize::MAX / 2);
    let mut r: Vec<u16> = Vec::with_capacity(n);
    let mut i: usize = 0;
    while i < n
        invariant
            n == bytes@.len() / 2,
            n <= usize::MAX / 2,
            i <= n,
            r@.len() == i,
            forall|j: int| 0 <= j < i ==> #[trigger] r@[j] == tiles_le(bytes@)[j],
        decreases n - i,
    {
        let v: u16 = bytes[2 * i] as u16 + 256 * (bytes[2 * i + 1] as u16);
        r.push(v);
        i = i + 1;
    }
    assert(r@ =~= tiles_le(bytes@));
    r
}

} // verus!
