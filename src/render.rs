//! Draws the symbols of a message on one grayscale canvas and writes it as PNG.
use vstd::prelude::*;
use crate::error::Error;
use crate::split::EncodedPart;
use crate::frame::MAX_PARTS;

verus! {

/// White border around the canvas and gap between symbols, in pixels.
pub const SPACING: u64 = 64;

/// A grayscale raster, row by row.
pub struct Raster {
    pub width: u32,
    pub height: u32,
    pub pixels: Vec<u8>,
}

/// Every symbol is a normal-version QR matrix with all its modules.
pub open spec fn well_formed(parts: Seq<EncodedPart>) -> bool {
    parts.len() <= MAX_PARTS && forall|i: int| 0 <= i < parts.len() ==> {
        &&& 21 <= (#[trigger] parts[i]).symbol.width <= 177
        &&& parts[i].symbol.modules@.len() == parts[i].symbol.width * parts[i].symbol.width
    }
}

/// Pixels per module: at least 4, about 360 pixels per symbol.
pub open spec fn scale_of(w: nat) -> nat {
    if w > 0 && 360nat / w > 4 { 360nat / w } else { 4 }
}

/// Side of a symbol's image, in pixels.
pub open spec fn size_of(w: nat) -> nat {
    w * scale_of(w)
}

/// Largest symbol image among the first `k` parts.
pub open spec fn max_size(parts: Seq<EncodedPart>, k: nat) -> nat
    decreases k,
{
    if k == 0 || k > parts.len() {
        0
    } else {
        let prev = max_size(parts, (k - 1) as nat);
        let s = size_of(parts[k - 1].symbol.width as nat);
        if s > prev { s } else { prev }
    }
}

/// Number of rows needed for `n` symbols at `cols` per row.
pub open spec fn row_count(n: nat, cols: nat) -> nat {
    if cols == 0 { 0 } else { n / cols + (if n % cols != 0 { 1nat } else { 0nat }) }
}

/// Side `cells` cells of `cell` pixels with spacing around and between them.
pub open spec fn extent(cell: nat, cells: nat) -> nat {
    cell * cells + (SPACING as nat) * (cells + 1)
}

/// The canvas value at `(x, y)`: 0 for a dark module, 255 elsewhere. Symbol `i`
/// sits in the cell at row `i / cols`, column `i % cols`, its top-left corner.
pub open spec fn pixel_spec(parts: Seq<EncodedPart>, cols: nat, cell: nat, x: nat, y: nat) -> u8 {
    if x < SPACING || y < SPACING {
        255
    } else {
        let pitch: nat = cell + SPACING as nat;
        let cx: nat = (x - SPACING) as nat;
        let cy: nat = (y - SPACING) as nat;
        let col = cx / pitch;
        let row = cy / pitch;
        let ox = cx % pitch;
        let oy = cy % pitch;
        let i = row * cols + col;
        if col >= cols || i >= parts.len() {
            255
        } else {
            let w = parts[i as int].symbol.width as nat;
            let s = scale_of(w);
            if ox >= w * s || oy >= w * s {
                255
            } else if parts[i as int].symbol.modules@[((oy / s) * w + ox / s) as int] {
                0
            } else {
                255
            }
        }
    }
}

/// A quotient stays below `bound` when the dividend is below `bound * d`.
proof fn lemma_quotient_below(o: int, d: int, bound: int)
    requires
        0 <= o < bound * d,
        d > 0,
    ensures
        o / d < bound,
{
    vstd::arithmetic::div_mod::lemma_fundamental_div_mod(o, d);
    if o / d >= bound {
        vstd::arithmetic::mul::lemma_mul_inequality(bound, o / d, d);
        vstd::arithmetic::mul::lemma_mul_is_commutative(d, o / d);
    }
}

fn scale_exec(w: usize) -> (r: usize)
    requires
        21 <= w <= 177,
    ensures
        r == scale_of(w as nat),
        4 <= r <= 17,
        r * w <= 708,
{
    let q = 360 / w;
    proof {
        vstd::arithmetic::div_mod::lemma_div_is_ordered_by_denominator(360, 21, w as int);
        vstd::arithmetic::div_mod::lemma_fundamental_div_mod(360, w as int);
        vstd::arithmetic::mul::lemma_mul_is_commutative(w as int, q as int);
    }
    let r = if q > 4 { q } else { 4 };
    assert(r * w <= 708) by (nonlinear_arith)
        requires
            w <= 177,
            q * w <= 360,
            r == (if q > 4 { q } else { 4 });
    r
}

fn cell_size(parts: &Vec<EncodedPart>) -> (r: u64)
    requires
        well_formed(parts@),
    ensures
        r == max_size(parts@, parts@.len()),
        r <= 708,
{
    let mut m: u64 = 0;
    let mut k: usize = 0;
    while k < parts.len()
        invariant
            k <= parts@.len(),
            well_formed(parts@),
            m == max_size(parts@, k as nat),
            m <= 708,
        decreases parts@.len() - k,
    {
        let w = parts[k].symbol.width;
        assert(21 <= parts@[k as int].symbol.width <= 177);
        let s = scale_exec(w);
        let size = (w * s) as u64;
        assert(size == size_of(w as nat)) by (nonlinear_arith)
            requires size == w * s, s == scale_of(w as nat);
        if size > m {
            m = size;
        }
        k += 1;
    }
    m
}

fn pixel_value(parts: &Vec<EncodedPart>, cols: u64, cell: u64, x: u64, y: u64) -> (r: u8)
    requires
        well_formed(parts@),
        cell <= 708,
        1 <= cols <= u32::MAX,
        x <= u32::MAX,
        y <= u32::MAX,
    ensures
        r == pixel_spec(parts@, cols as nat, cell as nat, x as nat, y as nat),
{
    if x < SPACING || y < SPACING {
        return 255;
    }
    let pitch = cell + SPACING;
    let cx = x - SPACING;
    let cy = y - SPACING;
    let col = cx / pitch;
    let row = cy / pitch;
    let ox = cx % pitch;
    let oy = cy % pitch;
    if col >= cols {
        return 255;
    }
    assert(row <= u32::MAX && col < cols) by {
        vstd::arithmetic::div_mod::lemma_div_is_ordered_by_denominator(cy as int, 1, pitch as int);
    }
    assert(row * cols + col <= u32::MAX * u32::MAX + u32::MAX) by (nonlinear_arith)
        requires
            row <= u32::MAX,
            cols <= u32::MAX,
            col < cols;
    let i = row * cols + col;
    if i >= parts.len() as u64 {
        return 255;
    }
    let iu = i as usize;
    let w = parts[iu].symbol.width;
    assert(21 <= parts@[iu as int].symbol.width <= 177);
    let s = scale_exec(w);
    let side = (w * s) as u64;
    if ox >= side || oy >= side {
        return 255;
    }
    let mx = (ox as usize) / s;
    let my = (oy as usize) / s;
    proof {
        lemma_quotient_below(ox as int, s as int, w as int);
        lemma_quotient_below(oy as int, s as int, w as int);
    }
    assert(my * w + mx < w * w) by (nonlinear_arith)
        requires
            my < w,
            mx < w;
    assert(w * w <= 177 * 177) by (nonlinear_arith) requires w <= 177;
    if parts[iu].symbol.modules[my * w + mx] {
        0
    } else {
        255
    }
}

/// Lays the symbols out `per_row` to a row on a white canvas.
pub fn render(parts: &Vec<EncodedPart>, per_row: u32) -> (r: Result<Raster, Error>)
    requires
        well_formed(parts@),
    ensures
        ({
            let cell = max_size(parts@, parts@.len());
            let w = extent(cell, per_row as nat);
            let h = extent(cell, row_count(parts@.len(), per_row as nat));
            match r {
                Ok(img) => {
                    &&& per_row > 0
                    &&& img.width == w && img.height == h
                    &&& img.pixels@.len() == w * h
                    &&& w * h <= usize::MAX
                    &&& forall|k: int| 0 <= k < img.pixels@.len() ==> #[trigger] img.pixels@[k]
                        == pixel_spec(parts@, per_row as nat, cell, (k % (w as int)) as nat, (k / (w as int)) as nat)
                },
                Err(e) => e == Error::ValueValidation
                    && (per_row == 0 || w > u32::MAX || h > u32::MAX || w * h > usize::MAX),
            }
        }),
{
    if per_row == 0 {
        return Err(Error::ValueValidation);
    }
    let cell = cell_size(parts);
    let cols = per_row as u64;
    let n = parts.len() as u64;
    let rows = n / cols + if n % cols != 0 { 1 } else { 0 };
    assert(cell * cols <= 708 * u32::MAX) by (nonlinear_arith) requires cell <= 708, cols <= u32::MAX;
    assert(rows <= 17) by {
        vstd::arithmetic::div_mod::lemma_div_is_ordered_by_denominator(n as int, 1, cols as int);
    }
    assert(cell * rows <= 708 * 17) by (nonlinear_arith) requires cell <= 708, rows <= 17;
    let w = cell * cols + SPACING * (cols + 1);
    let h = cell * rows + SPACING * (rows + 1);
    if w > u32::MAX as u64 || h > u32::MAX as u64 {
        return Err(Error::ValueValidation);
    }
    assert(w * h <= u32::MAX * u32::MAX) by (nonlinear_arith) requires w <= u32::MAX, h <= u32::MAX;
    let total = w * h;
    if total > usize::MAX as u64 {
        return Err(Error::ValueValidation);
    }
    let total = total as usize;
    let wu = w as usize;
    let mut pixels: Vec<u8> = Vec::new();
    let mut k: usize = 0;
    while k < total
        invariant
            k <= total,
            total == w * h,
            wu == w,
            w >= 64,
            w <= u32::MAX,
            h <= u32::MAX,
            cell <= 708,
            1 <= cols <= u32::MAX,
            well_formed(parts@),
            pixels@.len() == k,
            forall|j: int| 0 <= j < k ==> #[trigger] pixels@[j]
                == pixel_spec(parts@, cols as nat, cell as nat, (j % (w as int)) as nat, (j / (w as int)) as nat),
        decreases total - k,
    {
        let x = k % wu;
        let y = k / wu;
        proof {
            lemma_quotient_below(k as int, w as int, h as int);
        }
        let v = pixel_value(parts, cols, cell, x as u64, y as u64);
        pixels.push(v);
        k += 1;
    }
    Ok(Raster { width: w as u32, height: h as u32, pixels })
}

/// The eight bytes every PNG file starts with.
pub open spec fn png_signature() -> Seq<u8> {
    seq![0x89u8, 0x50u8, 0x4eu8, 0x47u8, 0x0du8, 0x0au8, 0x1au8, 0x0au8]
}

/// The PNG file of a `width` by `height` 8-bit grayscale raster.
pub uninterp spec fn png_encoding(width: nat, height: nat, pixels: Seq<u8>) -> Seq<u8>;

/// Relies on `image::write_buffer_with_format` (PNG, 8-bit grayscale): the file
/// depends on the raster alone, starts with the PNG signature and a header chunk,
/// and writing to a `Vec` fails only on a zero width or height.
#[verifier::external_body]
fn encode_png(width: u32, height: u32, pixels: &Vec<u8>) -> (r: Result<Vec<u8>, Error>)
    requires
        pixels@.len() == width * height,
    ensures
        r matches Ok(v) ==> v@ == png_encoding(width as nat, height as nat, pixels@),
        r matches Ok(v) ==> v@.len() > 8 && v@.subrange(0, 8) == png_signature(),
        r matches Err(e) ==> e is Io,
        width > 0 && height > 0 ==> r is Ok,
{
    let mut out: Vec<u8> = Vec::new();
    let mut cursor = std::io::Cursor::new(&mut out);
    let res = image::write_buffer_with_format(&mut cursor, pixels, width, height,
        image::ColorType::L8, image::ImageFormat::Png);
    match res {
        Ok(()) => Ok(out),
        Err(e) => Err(Error::Io(e.to_string())),
    }
}

/// Width of the canvas for `parts` laid out `per_row` to a row.
pub open spec fn canvas_width(parts: Seq<EncodedPart>, per_row: nat) -> nat {
    extent(max_size(parts, parts.len()), per_row)
}

/// Height of the canvas for `parts` laid out `per_row` to a row.
pub open spec fn canvas_height(parts: Seq<EncodedPart>, per_row: nat) -> nat {
    extent(max_size(parts, parts.len()), row_count(parts.len(), per_row))
}

/// The canvas can be drawn: a positive row width, sides that fit a PNG header
/// and a pixel count that fits memory.
pub open spec fn canvas_fits(parts: Seq<EncodedPart>, per_row: nat) -> bool {
    let w = canvas_width(parts, per_row);
    let h = canvas_height(parts, per_row);
    per_row > 0 && w <= u32::MAX && h <= u32::MAX && w * h <= usize::MAX
}

/// The canvas pixels, row by row.
pub open spec fn canvas_pixels(parts: Seq<EncodedPart>, per_row: nat) -> Seq<u8> {
    let w = canvas_width(parts, per_row);
    let h = canvas_height(parts, per_row);
    let cell = max_size(parts, parts.len());
    Seq::new(w * h, |k: int| pixel_spec(parts, per_row, cell, (k % (w as int)) as nat, (k / (w as int)) as nat))
}

/// The PNG file of the canvas, or why it cannot be drawn.
pub open spec fn image_of(parts: Seq<EncodedPart>, per_row: nat) -> Result<Seq<u8>, Error> {
    if canvas_fits(parts, per_row) {
        Ok(png_encoding(canvas_width(parts, per_row), canvas_height(parts, per_row), canvas_pixels(parts, per_row)))
    } else {
        Err(Error::ValueValidation)
    }
}

/// The PNG file of the canvas that `render` draws.
pub fn render_png(parts: &Vec<EncodedPart>, per_row: u32) -> (r: Result<Vec<u8>, Error>)
    requires
        well_formed(parts@),
    ensures
        match r {
            Ok(v) => image_of(parts@, per_row as nat) == Ok::<Seq<u8>, Error>(v@),
            Err(e) => image_of(parts@, per_row as nat) == Err::<Seq<u8>, Error>(e),
        },
        r matches Ok(v) ==> v@.len() > 8 && v@.subrange(0, 8) == png_signature(),
{
    let img = match render(parts, per_row) {
        Ok(img) => img,
        Err(e) => {
            return Err(e);
        },
    };
    let ghost w = canvas_width(parts@, per_row as nat);
    assert(img.pixels@ =~= canvas_pixels(parts@, per_row as nat));
    let r = encode_png(img.width, img.height, &img.pixels);
    match r {
        Ok(v) => Ok(v),
        Err(e) => Err(e),
    }
}

} // verus!
