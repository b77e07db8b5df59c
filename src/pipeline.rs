//! Both directions end to end: bytes to framed lines, symbols and a PNG canvas,
//! and framed text or a scanned canvas back to bytes.
use vstd::prelude::*;
use crate::error::Error;
use vstd::utf8::{valid_utf8, valid_first_scalar, pop_first_scalar};
use crate::assemble::{assemble_spec, assemble_text, collect_spec, strip_cr, all_present, has_duplicate,
    find_part, joined, lemma_collect_step, lemma_find_identity};
use crate::frame::{FragmentView, frame_spec, frameable, part_byte, lemma_parse_frame, lemma_hex_digit};
use crate::codec::{base64_text, open_spec, open_envelope, seal, to_text, from_text, envelope,
    control_byte, gcm_sealed, url_safe, MAX_PLAIN, NONCE_LEN};
use crate::render::{Raster, render_png, well_formed, image_of, png_signature};
use crate::split::{EcLevel, EncodedPart, split_parts, split_result, search_spec, all_parts_build, parts_of, part_slice, part_len, min_nat,
    lemma_search_minimal};

verus! {

/// The bytes of a result, or its error.
pub open spec fn result_view(r: Result<Vec<u8>, Error>) -> Result<Seq<u8>, Error> {
    match r {
        Ok(v) => Ok(v@),
        Err(e) => Err(e),
    }
}

/// The key, as bytes, if there is one.
pub open spec fn key_view(key: Option<[u8; 32]>) -> Option<Seq<u8>> {
    match key {
        Some(k) => Some(k@),
        None => None,
    }
}

/// Splits the base64 text of `payload` into parts and symbols.
pub fn encode_payload(payload: &[u8], level: EcLevel) -> (r: Result<Vec<EncodedPart>, Error>)
    ensures
        split_result(r, base64_text(payload@), level),
        all_url_safe(base64_text(payload@)),
{
    let text = to_text(payload);
    split_parts(&text, level)
}

/// Encodes `data`, sealed under `key` when there is one, into framed parts with
/// their symbols.
pub fn encode_data(data: &[u8], key: Option<[u8; 32]>, level: EcLevel) -> (r: Result<Vec<EncodedPart>, Error>)
    ensures
        key is None ==> split_result(r, base64_text(data@), level) && all_url_safe(base64_text(data@)),
        key is Some && r is Ok ==> data@.len() <= MAX_PLAIN,
        key matches Some(k) ==> (data@.len() > MAX_PLAIN && (r matches Err(e) && e == Error::Crypto))
            || exists|filler: u32, nonce: Seq<u8>| nonce.len() == NONCE_LEN
                && gcm_sealed(k@, nonce, data@).len() == data@.len() + 16
                && split_result(r, base64_text(#[trigger] envelope(control_byte(filler), nonce, gcm_sealed(k@, nonce, data@))), level)
                && all_url_safe(base64_text(envelope(control_byte(filler), nonce, gcm_sealed(k@, nonce, data@)))),
{
    match key {
        None => encode_payload(data, level),
        Some(k) => {
            let sealed = seal(data, &k)?;
            encode_payload(&sealed, level)
        },
    }
}

/// The framed lines of the parts, each ended by a newline.
pub open spec fn lines_text(parts: Seq<EncodedPart>) -> Seq<u8>
    decreases parts.len(),
{
    if parts.len() == 0 {
        Seq::empty()
    } else {
        lines_text(parts.drop_last()) + parts.last().line@ + seq![10u8]
    }
}

/// The text output: one framed line per part.
pub fn text_output(parts: &Vec<EncodedPart>) -> (r: Vec<u8>)
    ensures
        r@ == lines_text(parts@),
{
    let mut out: Vec<u8> = Vec::new();
    let mut k: usize = 0;
    while k < parts.len()
        invariant
            k <= parts@.len(),
            out@ == lines_text(parts@.subrange(0, k as int)),
        decreases parts@.len() - k,
    {
        let line = &parts[k].line;
        let ghost base = out@;
        let mut c: usize = 0;
        while c < line.len()
            invariant
                c <= line@.len(),
                out@ == base + line@.subrange(0, c as int),
            decreases line@.len() - c,
        {
            out.push(line[c]);
            c += 1;
            assert(out@ =~= base + line@.subrange(0, c as int));
        }
        out.push(10u8);
        assert(parts@.subrange(0, k + 1).drop_last() =~= parts@.subrange(0, k as int));
        assert(line@.subrange(0, line@.len() as int) =~= line@);
        assert(out@ =~= lines_text(parts@.subrange(0, k + 1)));
        k += 1;
    }
    assert(parts@.subrange(0, parts@.len() as int) =~= parts@);
    out
}

/// Encodes `data`, sealed under `key` when there is one, as one PNG canvas with
/// the symbols of its parts `per_row` to a row.
pub fn encode_image(data: &[u8], key: Option<[u8; 32]>, level: EcLevel, per_row: u32) -> (r: Result<Vec<u8>, Error>)
    ensures
        key is None ==> image_result(r, base64_text(data@), level, per_row as nat),
        r matches Ok(v) ==> is_png_spec(v@),
        key is Some && r is Ok ==> data@.len() <= MAX_PLAIN,
        key matches Some(k) ==> (data@.len() > MAX_PLAIN && (r matches Err(x) && x == Error::Crypto))
            || exists|filler: u32, nonce: Seq<u8>| nonce.len() == NONCE_LEN
                && image_result(r, base64_text(#[trigger] sealed_payload(data@, k@, filler, nonce)), level, per_row as nat),
{
    let parts = match encode_data(data, key, level) {
        Ok(parts) => parts,
        Err(x) => {
            let r: Result<Vec<u8>, Error> = Err(x);
            proof {
                if let Some(k) = key {
                    if !(data@.len() > MAX_PLAIN && x == Error::Crypto) {
                        let (filler, nonce) = choose|filler: u32, nonce: Seq<u8>| nonce.len() == NONCE_LEN
                            && split_result(Err(x), base64_text(#[trigger] envelope(control_byte(filler), nonce,
                                gcm_sealed(k@, nonce, data@))), level)
                            && all_url_safe(base64_text(envelope(control_byte(filler), nonce, gcm_sealed(k@, nonce, data@))));
                        assert(image_result(r, base64_text(sealed_payload(data@, k@, filler, nonce)), level, per_row as nat));
                    }
                }
            }
            return r;
        },
    };
    let ghost e = match key {
        None => base64_text(data@),
        Some(k) => {
            let (filler, nonce) = choose|filler: u32, nonce: Seq<u8>| nonce.len() == NONCE_LEN
                && split_result(Ok(parts), base64_text(#[trigger] envelope(control_byte(filler), nonce,
                    gcm_sealed(k@, nonce, data@))), level)
                && all_url_safe(base64_text(envelope(control_byte(filler), nonce, gcm_sealed(k@, nonce, data@))));
            base64_text(sealed_payload(data@, k@, filler, nonce))
        },
    };
    proof {
        lemma_split_renders(Ok(parts), e, level);
    }
    let r = render_png(&parts, per_row);
    proof {
        assert(split_result(Ok(parts), e, level));
        assert(result_view(r) == image_of(parts@, per_row as nat));
        assert(image_result(r, e, level, per_row as nat));
    }
    r
}

/// A successful split always gives parts the renderer accepts.
pub proof fn lemma_split_renders(r: Result<Vec<EncodedPart>, Error>, e: Seq<u8>, level: EcLevel)
    requires
        split_result(r, e, level),
        r is Ok,
    ensures
        well_formed(r->Ok_0@),
{
    lemma_search_minimal(e, level, 1);
}

/// What decoding the framed lines of `text` gives: reassemble, read the base64,
/// and open the envelope when there is a key.
pub open spec fn decode_text_spec(text: Seq<u8>, key: Option<Seq<u8>>) -> Result<Seq<u8>, Error> {
    match assemble_spec(text) {
        Err(e) => Err(e),
        Ok(t) => if exists|b: Seq<u8>| base64_text(b) == t {
            let b = choose|b: Seq<u8>| base64_text(b) == t;
            match key {
                None => Ok(b),
                Some(k) => open_spec(b, k),
            }
        } else {
            Err(Error::InvalidInput)
        },
    }
}

/// Decodes the framed lines of `text`, opening the envelope under `key` if given.
/// Text that reassembles to the base64 of some bytes decodes to those bytes, or,
/// under a key, to what they seal under it.
pub fn decode_text(text: &[u8], key: Option<[u8; 32]>) -> (r: Result<Vec<u8>, Error>)
    ensures
        result_view(r) == decode_text_spec(text@, key_view(key)),
        key is None ==> forall|b: Seq<u8>| assemble_spec(text@) == Ok::<Seq<u8>, Error>(#[trigger] base64_text(b))
            ==> result_view(r) == Ok::<Seq<u8>, Error>(b),
        key matches Some(k) ==> forall|c: u8, nonce: Seq<u8>, p: Seq<u8>|
            c & 0x1fu8 == NONCE_LEN as u8 && nonce.len() == NONCE_LEN && p.len() <= MAX_PLAIN
                && assemble_spec(text@) == Ok::<Seq<u8>, Error>(base64_text(#[trigger] envelope(c, nonce, gcm_sealed(k@, nonce, p))))
                ==> result_view(r) == Ok::<Seq<u8>, Error>(p),
{
    let joined = match assemble_text(text) {
        Ok(j) => j,
        Err(e) => {
            return Err(e);
        },
    };
    let data = from_text(&joined);
    let data = match data {
        Ok(d) => d,
        Err(e) => {
            return Err(e);
        },
    };
    let ghost t = joined@;
    assert(base64_text(data@) == t);
    assert(exists|b: Seq<u8>| base64_text(b) == t);
    assert((choose|b: Seq<u8>| base64_text(b) == t) == data@);
    match key {
        None => Ok(data),
        Some(k) => open_envelope(&data, &k),
    }
}

/// The input is a PNG file rather than text.
pub open spec fn is_png_spec(b: Seq<u8>) -> bool {
    b.len() > 8 && b.subrange(0, 8) == png_signature()
}

/// Whether `input` starts with the PNG signature (and holds more than it).
pub fn is_png(input: &[u8]) -> (r: bool)
    ensures
        r == is_png_spec(input@),
{
    if input.len() <= 8 {
        return false;
    }
    let r = input[0] == 0x89u8 && input[1] == 0x50u8 && input[2] == 0x4eu8 && input[3] == 0x47u8
        && input[4] == 0x0du8 && input[5] == 0x0au8 && input[6] == 0x1au8 && input[7] == 0x0au8;
    if r {
        assert(input@.subrange(0, 8) =~= png_signature());
    } else {
        assert(input@.subrange(0, 8) != png_signature()) by {
            if input@.subrange(0, 8) == png_signature() {
                assert(input@.subrange(0, 8)[0] == input@[0]);
                assert(input@.subrange(0, 8)[1] == input@[1]);
                assert(input@.subrange(0, 8)[2] == input@[2]);
                assert(input@.subrange(0, 8)[3] == input@[3]);
                assert(input@.subrange(0, 8)[4] == input@[4]);
                assert(input@.subrange(0, 8)[5] == input@[5]);
                assert(input@.subrange(0, 8)[6] == input@[6]);
                assert(input@.subrange(0, 8)[7] == input@[7]);
            }
        }
    }
    r
}

/// Relies on `std::str::from_utf8`: it accepts exactly the valid UTF-8 sequences.
#[verifier::external_body]
fn check_utf8(b: &[u8]) -> (r: bool)
    ensures
        r == valid_utf8(b@),
{
    std::str::from_utf8(b).is_ok()
}

/// The 8-bit grayscale raster a PNG file holds: width, height, pixels.
pub uninterp spec fn gray_of(png: Seq<u8>) -> Option<(nat, nat, Seq<u8>)>;

/// Relies on `image::load_from_memory` and `DynamicImage::to_luma8`: the raster
/// depends on the file alone and has `width * height` pixels.
#[verifier::external_body]
fn load_gray(png: &[u8]) -> (r: Option<Raster>)
    ensures
        match r {
            Some(img) => gray_of(png@) == Some((img.width as nat, img.height as nat, img.pixels@))
                && img.pixels@.len() == img.width * img.height,
            None => gray_of(png@) is None,
        },
{
    match image::load_from_memory(png) {
        Ok(d) => {
            let g = d.to_luma8();
            Some(Raster { width: g.width(), height: g.height(), pixels: g.into_raw() })
        },
        Err(_) => None,
    }
}

/// The pixel at `(x, y)`, white outside the raster.
pub fn gray_at(img: &Raster, x: usize, y: usize) -> (r: u8)
    ensures
        (x < img.width && y < img.height && img.pixels@.len() == img.width * img.height)
            ==> r == img.pixels@[y * img.width + x],
{
    let w = img.width as u64;
    let h = img.height as u64;
    if x < img.width as usize && y < img.height as usize {
        let (xu, yu) = (x as u64, y as u64);
        assert(w * h <= u32::MAX * u32::MAX) by (nonlinear_arith) requires w <= u32::MAX, h <= u32::MAX;
        if w * h == img.pixels.len() as u64 {
            assert(yu * w + xu < w * h) by (nonlinear_arith) requires xu < w, yu < h;
            let j = yu * w + xu;
            return img.pixels[j as usize];
        }
    }
    255
}

/// The texts of the QR symbols found in a raster, or `None` if one does not decode.
pub uninterp spec fn qr_texts(width: nat, height: nat, pixels: Seq<u8>) -> Option<Seq<Seq<u8>>>;

pub open spec fn texts_view(v: Seq<Vec<u8>>) -> Seq<Seq<u8>> {
    v.map_values(|t: Vec<u8>| t@)
}

/// Relies on rqrr's `PreparedImage::prepare_from_greyscale`, `detect_grids` and
/// `Grid::decode`: the texts depend on the raster alone.
#[verifier::external_body]
fn read_symbols(img: &Raster) -> (r: Option<Vec<Vec<u8>>>)
    requires
        img.pixels@.len() == img.width * img.height,
    ensures
        match r {
            Some(v) => qr_texts(img.width as nat, img.height as nat, img.pixels@) == Some(texts_view(v@)),
            None => qr_texts(img.width as nat, img.height as nat, img.pixels@) is None,
        },
{
    let mut prepared = rqrr::PreparedImage::prepare_from_greyscale(
        img.width as usize, img.height as usize, |x, y| gray_at(img, x, y));
    prepared.detect_grids().into_iter()
        .map(|g| g.decode().ok().map(|(_, s)| s.into_bytes()))
        .collect()
}

/// The texts joined by newlines.
pub open spec fn join_lines(ts: Seq<Seq<u8>>) -> Seq<u8>
    decreases ts.len(),
{
    if ts.len() == 0 {
        Seq::empty()
    } else if ts.len() == 1 {
        ts[0]
    } else {
        join_lines(ts.drop_last()) + seq![10u8] + ts.last()
    }
}

fn join_texts(ts: &Vec<Vec<u8>>) -> (r: Vec<u8>)
    ensures
        r@ == join_lines(texts_view(ts@)),
{
    let mut out: Vec<u8> = Vec::new();
    let mut k: usize = 0;
    while k < ts.len()
        invariant
            k <= ts@.len(),
            out@ == join_lines(texts_view(ts@.subrange(0, k as int))),
        decreases ts@.len() - k,
    {
        let ghost prev = texts_view(ts@.subrange(0, k as int));
        if k > 0 {
            out.push(10u8);
        }
        let t = &ts[k];
        let ghost base = out@;
        let mut c: usize = 0;
        while c < t.len()
            invariant
                c <= t@.len(),
                out@ == base + t@.subrange(0, c as int),
            decreases t@.len() - c,
        {
            out.push(t[c]);
            c += 1;
            assert(out@ =~= base + t@.subrange(0, c as int));
        }
        assert(t@.subrange(0, t@.len() as int) =~= t@);
        assert(texts_view(ts@.subrange(0, k + 1)).drop_last() =~= prev);
        assert(texts_view(ts@.subrange(0, k + 1)).last() == t@);
        if k == 0 {
            assert(out@ =~= join_lines(texts_view(ts@.subrange(0, k + 1))));
        } else {
            assert(out@ =~= join_lines(texts_view(ts@.subrange(0, k + 1))));
        }
        k += 1;
    }
    assert(ts@.subrange(0, ts@.len() as int) =~= ts@);
    out
}

/// What decoding `input` gives: a PNG canvas is scanned for symbols whose texts,
/// one per line, are decoded; anything else must be UTF-8 framed text.
pub open spec fn decode_spec(input: Seq<u8>, key: Option<Seq<u8>>) -> Result<Seq<u8>, Error> {
    if is_png_spec(input) {
        match gray_of(input) {
            None => Err(Error::InvalidInput),
            Some(g) => match qr_texts(g.0, g.1, g.2) {
                None => Err(Error::InvalidInput),
                Some(ts) => decode_text_spec(join_lines(ts), key),
            },
        }
    } else if !valid_utf8(input) {
        Err(Error::InvalidInput)
    } else {
        decode_text_spec(input, key)
    }
}

/// Decodes a PNG canvas or framed text back to the bytes it carries. UTF-8 text
/// that reassembles to the base64 of some bytes decodes to those bytes, or, under
/// a key, to what they seal under it.
pub fn decode(input: &[u8], key: Option<[u8; 32]>) -> (r: Result<Vec<u8>, Error>)
    ensures
        result_view(r) == decode_spec(input@, key_view(key)),
        !is_png_spec(input@) && valid_utf8(input@) && key is None ==> forall|b: Seq<u8>|
            assemble_spec(input@) == Ok::<Seq<u8>, Error>(#[trigger] base64_text(b))
            ==> result_view(r) == Ok::<Seq<u8>, Error>(b),
        !is_png_spec(input@) && valid_utf8(input@) ==> (key matches Some(k) ==> forall|c: u8, nonce: Seq<u8>, p: Seq<u8>|
            c & 0x1fu8 == NONCE_LEN as u8 && nonce.len() == NONCE_LEN && p.len() <= MAX_PLAIN
                && assemble_spec(input@) == Ok::<Seq<u8>, Error>(base64_text(#[trigger] envelope(c, nonce, gcm_sealed(k@, nonce, p))))
                ==> result_view(r) == Ok::<Seq<u8>, Error>(p)),
{
    if is_png(input) {
        let img = match load_gray(input) {
            Some(img) => img,
            None => {
                return Err(Error::InvalidInput);
            },
        };
        let texts = match read_symbols(&img) {
            Some(t) => t,
            None => {
                return Err(Error::InvalidInput);
            },
        };
        let text = join_texts(&texts);
        decode_text(&text, key)
    } else if !check_utf8(input) {
        Err(Error::InvalidInput)
    } else {
        decode_text(input, key)
    }
}


/// The lines of the first `k` parts open the lines of all of them.
pub proof fn lemma_lines_prefix(ps: Seq<EncodedPart>, k: nat)
    requires
        k <= ps.len(),
    ensures
        lines_text(ps.take(k as int)).len() <= lines_text(ps).len(),
        lines_text(ps).subrange(0, lines_text(ps.take(k as int)).len() as int) == lines_text(ps.take(k as int)),
    decreases ps.len(),
{
    if k == ps.len() {
        assert(ps.take(k as int) =~= ps);
        assert(lines_text(ps).subrange(0, lines_text(ps).len() as int) =~= lines_text(ps));
    } else {
        lemma_lines_prefix(ps.drop_last(), k);
        assert(ps.drop_last().take(k as int) =~= ps.take(k as int));
        let p = lines_text(ps.take(k as int));
        let a = lines_text(ps.drop_last());
        assert(lines_text(ps) == a + ps.last().line@ + seq![10u8]);
        assert(lines_text(ps).subrange(0, p.len() as int) =~= a.subrange(0, p.len() as int));
    }
}

/// The fragments of the first `k` parts of an `n`-way split of `e`.
pub open spec fn split_views(e: Seq<u8>, n: nat, k: nat) -> Seq<FragmentView> {
    Seq::new(k, |j: int| FragmentView { index: j as nat, count: n, text: part_slice(e, n, j as nat) })
}

/// A text in the URL-safe base64 alphabet.
pub open spec fn all_url_safe(e: Seq<u8>) -> bool {
    forall|i: int| 0 <= i < e.len() ==> url_safe(#[trigger] e[i])
}

proof fn lemma_slice_frameable(e: Seq<u8>, n: nat, k: nat)
    requires
        1 <= n <= 16,
        k < n,
        all_url_safe(e),
    ensures
        frameable(part_slice(e, n, k)),
{
    let slice = part_slice(e, n, k);
    let l = part_len(e.len(), n);
    assert(k * l <= (k + 1) * l) by (nonlinear_arith);
    assert forall|i: int| 0 <= i < slice.len() implies #[trigger] slice[i] != 59u8 && slice[i] != 10u8
        && slice[i] != 13u8 by {
        assert(slice[i] == e[min_nat(k * l, e.len()) + i]);
        assert(url_safe(e[min_nat(k * l, e.len()) + i]));
    }
}

/// A framed line holds no line break and does not end in a carriage return.
proof fn lemma_frame_line_bytes(slice: Seq<u8>, k: nat, n: nat)
    requires
        k < n <= 16,
        frameable(slice),
    ensures
        forall|i: int| 0 <= i < frame_spec(slice, k, n).len() ==> #[trigger] frame_spec(slice, k, n)[i] != 10u8,
        strip_cr(frame_spec(slice, k, n)) == frame_spec(slice, k, n),
{
    let line = frame_spec(slice, k, n);
    let b = part_byte(k, n);
    lemma_hex_digit(b / 16);
    lemma_hex_digit(b % 16);
    assert forall|i: int| 0 <= i < line.len() implies #[trigger] line[i] != 10u8 by {
        if i >= 14 {
            assert(line[i] == slice[i - 14]);
        }
    }
    if slice.len() > 0 {
        assert(line.last() == slice.last());
    } else {
        assert(line.last() == 61u8);
    }
}

/// Where `t` opens with `pre + line + "\n"`, the line sits right after `pre`.
proof fn lemma_line_after(t: Seq<u8>, pre: Seq<u8>, line: Seq<u8>)
    requires
        pre.len() as int + line.len() + 1 <= t.len(),
        t.subrange(0, pre.len() as int + line.len() + 1) == pre + line + seq![10u8],
    ensures
        t.subrange(pre.len() as int, pre.len() as int + line.len() as int) == line,
        t[pre.len() as int + line.len() as int] == 10u8,
{
    let whole = pre + line + seq![10u8];
    assert(t[pre.len() as int + line.len() as int] == whole[pre.len() as int + line.len() as int]);
    assert forall|i: int| 0 <= i < line.len() implies t.subrange(pre.len() as int, pre.len() as int + line.len() as int)[i] == line[i] by {
        assert(t[pre.len() as int + i] == whole[pre.len() as int + i]);
    }
    assert(t.subrange(pre.len() as int, pre.len() as int + line.len() as int) =~= line);
}

#[verifier::rlimit(40)]
proof fn lemma_collect_parts(parts: Seq<EncodedPart>, e: Seq<u8>, level: EcLevel, n: nat, k: nat)
    requires
        parts_of(parts, e, level, n),
        1 <= n <= 16,
        k <= n,
        all_url_safe(e),
    ensures
        collect_spec(lines_text(parts), lines_text(parts.take(k as int)).len() as int, split_views(e, n, k))
            == Ok::<Seq<FragmentView>, Error>(split_views(e, n, n)),
    decreases n - k,
{
    let t = lines_text(parts);
    if k == n {
        assert(parts.take(k as int) =~= parts);
    } else {
        lemma_collect_parts(parts, e, level, n, k + 1);
        lemma_lines_prefix(parts, k + 1);
        let pre = lines_text(parts.take(k as int));
        let line = parts[k as int].line@;
        assert(parts.take(k as int + 1).drop_last() =~= parts.take(k as int));
        assert(parts.take(k as int + 1).last() == parts[k as int]);
        assert(lines_text(parts.take(k as int + 1)) == pre + line + seq![10u8]);
        let slice = part_slice(e, n, k);
        assert(line == frame_spec(slice, k, n));
        lemma_slice_frameable(e, n, k);
        lemma_parse_frame(slice, k, n);
        lemma_frame_line_bytes(slice, k, n);
        lemma_line_after(t, pre, line);
        let pos = pre.len() as int;
        assert forall|i: int| pos <= i < pos + line.len() implies t[i] != 10u8 by {
            assert(t[i] == t.subrange(pos, pos + line.len())[i - pos]);
        }
        let f = FragmentView { index: k, count: n, text: slice };
        assert(split_views(e, n, k).push(f) =~= split_views(e, n, k + 1));
        lemma_collect_step(t, pos, line.len() as int, split_views(e, n, k), f);
    }
}

proof fn lemma_joined_prefix(e: Seq<u8>, n: nat, k: nat)
    requires
        1 <= n <= 16,
        k <= n,
    ensures
        joined(split_views(e, n, n), k)
            == e.subrange(0, min_nat(k * part_len(e.len(), n), e.len()) as int),
    decreases k,
{
    let fr = split_views(e, n, n);
    let l = part_len(e.len(), n);
    if k == 0 {
        assert(e.subrange(0, 0) =~= Seq::<u8>::empty());
    } else {
        lemma_joined_prefix(e, n, (k - 1) as nat);
        assert forall|j: int| 0 <= j < fr.len() implies #[trigger] fr[j].index == j by {}
        lemma_find_identity(fr, (k - 1) as nat, 0);
        assert((k - 1) * l <= k * l) by (nonlinear_arith);
        let a = min_nat(((k - 1) as nat) * l, e.len());
        let b = min_nat(k * l, e.len());
        assert(fr[k - 1].text == e.subrange(a as int, b as int));
        assert(e.subrange(0, a as int) + e.subrange(a as int, b as int) =~= e.subrange(0, b as int));
    }
}

/// The text output of a split reassembles to exactly the text that was split.
pub proof fn lemma_text_output_assembles(parts: Seq<EncodedPart>, e: Seq<u8>, level: EcLevel, n: nat)
    requires
        parts_of(parts, e, level, n),
        1 <= n <= 16,
        all_url_safe(e),
    ensures
        assemble_spec(lines_text(parts)) == Ok::<Seq<u8>, Error>(e),
{
    assert(parts.take(0) =~= Seq::<EncodedPart>::empty());
    assert(split_views(e, n, 0) =~= Seq::<FragmentView>::empty());
    lemma_collect_parts(parts, e, level, n, 0);
    let fr = split_views(e, n, n);
    assert forall|j: int| 0 <= j < fr.len() implies #[trigger] fr[j].index == j by {}
    assert(all_present(fr, n)) by {
        assert forall|i: nat| i < n implies (#[trigger] find_part(fr, i, 0)) is Some by {
            lemma_find_identity(fr, i, 0);
        }
    }
    assert(!has_duplicate(fr));
    lemma_joined_prefix(e, n, n);
    let l = part_len(e.len(), n);
    vstd::arithmetic::div_mod::lemma_fundamental_div_mod(e.len() as int, n as int);
    assert(n * l >= e.len()) by (nonlinear_arith)
        requires
            l == e.len() / n + (if e.len() % n != 0 { 1nat } else { 0nat }),
            e.len() == n * (e.len() / n) + e.len() % n,
            e.len() % n < n,
            n >= 1;
    assert(e.subrange(0, e.len() as int) =~= e);
}


/// Splitting `e` at `level` settles on a part count and every part gets a symbol.
pub open spec fn split_succeeds(e: Seq<u8>, level: EcLevel) -> bool {
    search_spec(e, level, 1) matches Ok(n) && all_parts_build(e, level, n)
}

/// The payload of `data` sealed under `key` with the given filler bits and nonce.
pub open spec fn sealed_payload(data: Seq<u8>, key: Seq<u8>, filler: u32, nonce: Seq<u8>) -> Seq<u8> {
    envelope(control_byte(filler), nonce, gcm_sealed(key, nonce, data))
}

/// `r` is the text output of splitting `e` at `level`: one framed line per part,
/// or the error the split ends in.
pub open spec fn text_result(r: Result<Vec<u8>, Error>, e: Seq<u8>, level: EcLevel) -> bool {
    if split_succeeds(e, level) {
        exists|parts: Vec<EncodedPart>| #[trigger] split_result(Ok(parts), e, level)
            && result_view(r) == Ok::<Seq<u8>, Error>(lines_text(parts@))
    } else {
        r matches Err(x) && split_result(Err(x), e, level)
    }
}

/// `r` is the PNG canvas of the parts of `e` split at `level`, `per_row` to a
/// row, or the error the split or the canvas ends in.
pub open spec fn image_result(r: Result<Vec<u8>, Error>, e: Seq<u8>, level: EcLevel, per_row: nat) -> bool {
    if split_succeeds(e, level) {
        exists|parts: Vec<EncodedPart>| #[trigger] split_result(Ok(parts), e, level)
            && result_view(r) == image_of(parts@, per_row)
    } else {
        r matches Err(x) && split_result(Err(x), e, level)
    }
}

/// Encodes `data`, sealed under `key` when there is one, as framed text lines:
/// one line per part of the split of its base64 text. Whatever comes out
/// reassembles to that base64 text.
pub fn encode_text(data: &[u8], key: Option<[u8; 32]>, level: EcLevel) -> (r: Result<Vec<u8>, Error>)
    ensures
        key is None ==> text_result(r, base64_text(data@), level),
        key is None ==> (r matches Ok(t) ==> assemble_spec(t@) == Ok::<Seq<u8>, Error>(base64_text(data@))),
        r matches Ok(t) ==> valid_utf8(t@) && !is_png_spec(t@),
        key is Some && r is Ok ==> data@.len() <= MAX_PLAIN,
        key matches Some(k) ==> (data@.len() > MAX_PLAIN && (r matches Err(x) && x == Error::Crypto))
            || exists|filler: u32, nonce: Seq<u8>| nonce.len() == NONCE_LEN
                && text_result(r, base64_text(#[trigger] sealed_payload(data@, k@, filler, nonce)), level)
                && (r matches Ok(t) ==> assemble_spec(t@)
                    == Ok::<Seq<u8>, Error>(base64_text(sealed_payload(data@, k@, filler, nonce)))),
{
    let parts = encode_data(data, key, level);
    match parts {
        Ok(parts) => {
            let t = text_output(&parts);
            let r: Result<Vec<u8>, Error> = Ok(t);
            proof {
                match key {
                    None => {
                        let e = base64_text(data@);
                        let n = search_spec(e, level, 1)->Ok_0;
                        lemma_search_minimal(e, level, 1);
                        lemma_text_output_assembles(parts@, e, level, n);
                        lemma_text_output_is_text(parts@, e, level, n);
                        assert(split_result(Ok(parts), e, level));
                    },
                    Some(k) => {
                        let (filler, nonce) = choose|filler: u32, nonce: Seq<u8>| nonce.len() == NONCE_LEN
                            && split_result(Ok(parts), base64_text(#[trigger] envelope(control_byte(filler), nonce,
                                gcm_sealed(k@, nonce, data@))), level)
                            && all_url_safe(base64_text(envelope(control_byte(filler), nonce, gcm_sealed(k@, nonce, data@))));
                        let e = base64_text(sealed_payload(data@, k@, filler, nonce));
                        let n = search_spec(e, level, 1)->Ok_0;
                        lemma_search_minimal(e, level, 1);
                        lemma_text_output_assembles(parts@, e, level, n);
                        lemma_text_output_is_text(parts@, e, level, n);
                        assert(split_result(Ok(parts), e, level));
                        assert(text_result(r, e, level));
                    },
                }
            }
            r
        },
        Err(x) => {
            let r: Result<Vec<u8>, Error> = Err(x);
            proof {
                if let Some(k) = key {
                    if !(data@.len() > MAX_PLAIN && x == Error::Crypto) {
                        let (filler, nonce) = choose|filler: u32, nonce: Seq<u8>| nonce.len() == NONCE_LEN
                            && split_result(Err(x), base64_text(#[trigger] envelope(control_byte(filler), nonce,
                                gcm_sealed(k@, nonce, data@))), level)
                            && all_url_safe(base64_text(envelope(control_byte(filler), nonce, gcm_sealed(k@, nonce, data@))));
                        assert(text_result(r, base64_text(sealed_payload(data@, k@, filler, nonce)), level));
                    }
                }
            }
            r
        },
    }
}

/// Bytes below 128 are valid UTF-8, one character each.
pub proof fn lemma_ascii_utf8(b: Seq<u8>)
    requires
        forall|i: int| 0 <= i < b.len() ==> #[trigger] b[i] < 128,
    ensures
        valid_utf8(b),
    decreases b.len(),
{
    if b.len() > 0 {
        let c = b[0];
        assert(c < 128);
        assert(c & 0x80u8 == 0) by (bit_vector) requires c < 128u8;
        assert(valid_first_scalar(b));
        assert(pop_first_scalar(b) =~= b.drop_first());
        lemma_ascii_utf8(b.drop_first());
    }
}

/// The text output of a split is ASCII and opens with the frame magic, so it is
/// UTF-8 and never taken for a PNG file.
#[verifier::rlimit(40)]
pub proof fn lemma_text_output_is_text(parts: Seq<EncodedPart>, e: Seq<u8>, level: EcLevel, n: nat)
    requires
        parts_of(parts, e, level, n),
        1 <= n <= 16,
        all_url_safe(e),
    ensures
        valid_utf8(lines_text(parts)),
        !is_png_spec(lines_text(parts)),
{
    lemma_lines_ascii(parts, e, level, n, parts.len());
    assert(parts.take(parts.len() as int) =~= parts);
    lemma_ascii_utf8(lines_text(parts));
    lemma_lines_prefix(parts, 1);
    let one = parts.take(1);
    assert(one.drop_last() =~= Seq::<EncodedPart>::empty());
    assert(lines_text(one.drop_last()) == Seq::<u8>::empty());
    assert(one.last() == parts[0]);
    let first = lines_text(one);
    assert(first =~= parts[0].line@ + seq![10u8]);
    assert(parts[0].line@ == frame_spec(part_slice(e, n, 0), 0, n));
    assert(first[0] == 81u8);
    assert(lines_text(parts).subrange(0, first.len() as int)[0] == lines_text(parts)[0]);
    if is_png_spec(lines_text(parts)) {
        assert(lines_text(parts).subrange(0, 8)[0] == lines_text(parts)[0]);
    }
}

proof fn lemma_lines_ascii(parts: Seq<EncodedPart>, e: Seq<u8>, level: EcLevel, n: nat, k: nat)
    requires
        parts_of(parts, e, level, n),
        1 <= n <= 16,
        k <= n,
        all_url_safe(e),
    ensures
        forall|i: int| 0 <= i < lines_text(parts.take(k as int)).len() ==> #[trigger] lines_text(parts.take(k as int))[i] < 128,
    decreases k,
{
    if k > 0 {
        lemma_lines_ascii(parts, e, level, n, (k - 1) as nat);
        let prev = lines_text(parts.take(k - 1));
        assert(parts.take(k as int).drop_last() =~= parts.take(k - 1));
        let slice = part_slice(e, n, (k - 1) as nat);
        let line = parts[k - 1].line@;
        assert(line == frame_spec(slice, (k - 1) as nat, n));
        let l = part_len(e.len(), n);
        let km = (k - 1) as nat;
        assert(km * l <= (km + 1) * l) by (nonlinear_arith);
        let b = part_byte((k - 1) as nat, n);
        assert(b / 16 < 16 && b % 16 < 16);
        let all = lines_text(parts.take(k as int));
        assert(all == prev + line + seq![10u8]);
        assert forall|i: int| 0 <= i < all.len() implies #[trigger] all[i] < 128 by {
            if i < prev.len() {
                assert(all[i] == prev[i]);
            } else if i < prev.len() + line.len() {
                let j = i - prev.len();
                assert(all[i] == line[j]);
                if j >= 14 {
                    assert(line[j] == slice[j - 14]);
                    assert(slice[j - 14] == e[min_nat(((k - 1) as nat) * l, e.len()) + j - 14]);
                    assert(url_safe(e[min_nat(((k - 1) as nat) * l, e.len()) + j - 14]));
                }
            }
        }
    }
}

} // verus!
