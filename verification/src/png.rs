//! The PNG file of a screenshot of the window: uncompressed RGBA, built byte by byte.

use std::io::Write;
use vstd::prelude::*;

verus! {

/// One pixel: red, green, blue, alpha.
pub type Rgba = (u8, u8, u8, u8);

/// Why a screenshot gives no PNG file.
#[derive(Debug)]
pub enum PngError {
    /// A side is 0, or the pixel count is not width times height.
    BadSize { width: usize, height: usize, pixels: usize },
    /// The zlib stream could not be made (the `flate2` error's message).
    Zlib(String),
}

/// CRC-32 (IEEE, reflected polynomial `0xEDB88320`): one bit of the register.
pub open spec fn crc32_bit(c: u32) -> u32 {
    if c & 1 == 1 {
        (c >> 1) ^ 0xEDB8_8320
    } else {
        c >> 1
    }
}

/// The register after one byte.
pub open spec fn crc32_byte(c: u32, b: u8) -> u32 {
    let x = c ^ (b as u32);
    crc32_bit(crc32_bit(crc32_bit(crc32_bit(crc32_bit(crc32_bit(crc32_bit(crc32_bit(x))))))))
}

/// The register after the bytes, starting from all ones.
pub open spec fn crc32_register(s: Seq<u8>) -> u32
    decreases s.len(),
{
    if s.len() == 0 {
        0xffff_ffff
    } else {
        crc32_byte(crc32_register(s.drop_last()), s.last())
    }
}

/// The CRC-32 of the bytes: the final register, inverted.
pub open spec fn crc32_spec(s: Seq<u8>) -> u32 {
    crc32_register(s) ^ 0xffff_ffff
}

/// The zlib stream that `flate2`'s `ZlibEncoder` makes of the bytes at `Compression::none()`.
pub uninterp spec fn zlib_stored_spec(data: Seq<u8>) -> Seq<u8>;

/// One bit of the CRC register.
fn crc_bit(c: u32) -> (r: u32)
    ensures
        r == crc32_bit(c),
{
    if c & 1 == 1 {
        (c >> 1) ^ 0xEDB8_8320
    } else {
        c >> 1
    }
}

/// The CRC-32 (IEEE) of the bytes, bit by bit.
fn crc32(data: &[u8]) -> (r: u32)
    ensures
        r == crc32_spec(data@),
{
    let mut c: u32 = 0xffff_ffff;
    let mut i: usize = 0;
    while i < data.len()
        invariant
            i <= data@.len(),
            c == crc32_register(data@.subrange(0, i as int)),
        decreases data@.len() - i,
    {
        assert(data@.subrange(0, i + 1).drop_last() =~= data@.subrange(0, i as int));
        let x = c ^ (data[i] as u32);
        c = crc_bit(crc_bit(crc_bit(crc_bit(crc_bit(crc_bit(crc_bit(crc_bit(x))))))));
        i += 1;
    }
    assert(data@.subrange(0, data@.len() as int) =~= data@);
    c ^ 0xffff_ffff
}

/// `flate2::write::ZlibEncoder` at `Compression::none()` over a buffer: `new`, `write_all` of
/// the bytes, `finish`. Claimed: it succeeds (writing into a `Vec` does not fail, and a fresh
/// encoder reaches no error state), and the stream is the name above applied to the bytes.
#[verifier::external_body]
fn zlib_stored(data: &[u8]) -> (r: Result<Vec<u8>, String>)
    ensures
        r is Ok,
        r matches Ok(z) ==> z@ == zlib_stored_spec(data@),
{
    let mut enc = flate2::write::ZlibEncoder::new(Vec::new(), flate2::Compression::none());
    enc.write_all(data).map_err(|e| e.to_string())?;
    enc.finish().map_err(|e| e.to_string())
}

/// A number as four big-endian bytes.
pub open spec fn be32(v: u32) -> Seq<u8> {
    seq![(v >> 24) as u8, (v >> 16) as u8, (v >> 8) as u8, v as u8]
}

/// The bytes of the first `n` pixels, each row led by filter byte 0.
pub open spec fn scanlines(pixels: Seq<Rgba>, width: nat, n: nat) -> Seq<u8>
    decreases n,
{
    if n == 0 {
        seq![]
    } else {
        let p = pixels[n - 1];
        scanlines(pixels, width, (n - 1) as nat) + (if (n - 1) % (width as int) == 0 {
            seq![0u8]
        } else {
            seq![]
        }) + seq![p.0, p.1, p.2, p.3]
    }
}

/// A chunk: length, tag, data, and the CRC-32 of tag and data.
pub open spec fn chunk_spec(tag: Seq<u8>, data: Seq<u8>) -> Seq<u8> {
    be32(data.len() as u32) + tag + data + be32(crc32_spec(tag + data))
}

/// The PNG signature.
pub open spec fn png_signature() -> Seq<u8> {
    seq![0x89u8, 0x50, 0x4e, 0x47, 0x0d, 0x0a, 0x1a, 0x0a]
}

/// The header chunk's data: width, height, 8 bits, RGBA, no interlace.
pub open spec fn ihdr_spec(width: usize, height: usize) -> Seq<u8> {
    be32(width as u32) + be32(height as u32) + seq![8u8, 6, 0, 0, 0]
}

/// The sides fit the pixels: both above 0, and `width * height` pixels (the product taken
/// as 0 where it overflows `usize`, as `checked_mul(..).unwrap_or(0)` gives it).
pub open spec fn png_size_ok(width: usize, height: usize, pixels: nat) -> bool {
    let expected = if width * height <= usize::MAX {
        width * height
    } else {
        0
    };
    width > 0 && height > 0 && pixels == expected
}

/// The PNG file of the pixels, given the zlib stream of its rows.
pub open spec fn png_spec(width: usize, height: usize, z: Seq<u8>) -> Seq<u8> {
    png_signature() + chunk_spec(seq![0x49u8, 0x48, 0x44, 0x52], ihdr_spec(width, height)) + chunk_spec(
        seq![0x49u8, 0x44, 0x41, 0x54],
        z,
    ) + chunk_spec(seq![0x49u8, 0x45, 0x4e, 0x44], seq![])
}

fn push_be32(out: &mut Vec<u8>, v: u32)
    ensures
        final(out)@ == old(out)@ + be32(v),
{
    out.push((v >> 24) as u8);
    out.push((v >> 16) as u8);
    out.push((v >> 8) as u8);
    out.push(v as u8);
    assert(out@ =~= old(out)@ + be32(v));
}

fn push_bytes(out: &mut Vec<u8>, s: &[u8])
    ensures
        final(out)@ == old(out)@ + s@,
{
    let mut i: usize = 0;
    while i < s.len()
        invariant
            i <= s@.len(),
            out@ == old(out)@ + s@.subrange(0, i as int),
        decreases s@.len() - i,
    {
        out.push(s[i]);
        i += 1;
        assert(out@ =~= old(out)@ + s@.subrange(0, i as int));
    }
    assert(s@.subrange(0, s@.len() as int) =~= s@);
}

fn push_chunk(out: &mut Vec<u8>, tag: &[u8], data: &[u8])
    ensures
        final(out)@ == old(out)@ + chunk_spec(tag@, data@),
{
    let mut td: Vec<u8> = Vec::new();
    push_bytes(&mut td, tag);
    push_bytes(&mut td, data);
    assert(td@ =~= tag@ + data@);
    let crc = crc32(td.as_slice());
    push_be32(out, #[verifier::truncate] (data.len() as u32));
    push_bytes(out, tag);
    push_bytes(out, data);
    push_be32(out, crc);
    assert(out@ =~= old(out)@ + chunk_spec(tag@, data@));
}

/// The rows of the picture as the PNG stores them before compression.
fn scanline_bytes(width: usize, pixels: &Vec<Rgba>) -> (r: Vec<u8>)
    requires
        width > 0,
    ensures
        r@ == scanlines(pixels@, width as nat, pixels@.len()),
{
    let mut out: Vec<u8> = Vec::new();
    let mut i: usize = 0;
    while i < pixels.len()
        invariant
            width > 0,
            i <= pixels@.len(),
            out@ == scanlines(pixels@, width as nat, i as nat),
        decreases pixels@.len() - i,
    {
        let ghost before = out@;
        if i % width == 0 {
            out.push(0);
        }
        let (r, g, b, a) = pixels[i];
        out.push(r);
        out.push(g);
        out.push(b);
        out.push(a);
        i += 1;
        proof {
            let p = pixels@[i - 1];
            assert(p == (r, g, b, a));
            if (i - 1) % (width as int) == 0 {
                assert(out@ =~= before + seq![0u8] + seq![p.0, p.1, p.2, p.3]);
            } else {
                assert(out@ =~= before + Seq::<u8>::empty() + seq![p.0, p.1, p.2, p.3]);
            }
        }
    }
    out
}

/// The screenshot's PNG file: the signature, the header chunk (8-bit RGBA), one data chunk holding
/// the rows (each led by filter byte 0) through zlib without compression, and the end chunk.
/// Sides of 0, or a pixel count other than width times height, give `BadSize`.
pub fn png_file(width: usize, height: usize, pixels: &Vec<Rgba>) -> (r: Result<Vec<u8>, PngError>)
    ensures
        !png_size_ok(width, height, pixels@.len()) <==> r matches Err(PngError::BadSize { .. }),
        png_size_ok(width, height, pixels@.len()) ==> r is Ok,
        r matches Err(PngError::BadSize { width: w, height: h, pixels: n }) ==> w == width && h == height && n
            == pixels@.len(),
        r matches Ok(b) ==> b@ == png_spec(
            width,
            height,
            zlib_stored_spec(scanlines(pixels@, width as nat, pixels@.len())),
        ),
{
    let expected: usize = match width.checked_mul(height) {
        Some(x) => x,
        None => 0,
    };
    if width == 0 || height == 0 || pixels.len() != expected {
        return Err(PngError::BadSize { width, height, pixels: pixels.len() });
    }
    assert(png_size_ok(width, height, pixels@.len()));
    let raw = scanline_bytes(width, pixels);
    let z = match zlib_stored(raw.as_slice()) {
        Ok(z) => z,
        Err(m) => return Err(PngError::Zlib(m)),
    };
    let mut out: Vec<u8> = Vec::new();
    let sig: [u8; 8] = [0x89, 0x50, 0x4e, 0x47, 0x0d, 0x0a, 0x1a, 0x0a];
    push_bytes(&mut out, &sig);
    let mut ihdr: Vec<u8> = Vec::new();
    push_be32(&mut ihdr, #[verifier::truncate] (width as u32));
    push_be32(&mut ihdr, #[verifier::truncate] (height as u32));
    ihdr.push(8);
    ihdr.push(6);
    ihdr.push(0);
    ihdr.push(0);
    ihdr.push(0);
    assert(ihdr@ =~= ihdr_spec(width, height));
    let ihdr_tag: [u8; 4] = [0x49, 0x48, 0x44, 0x52];
    let idat_tag: [u8; 4] = [0x49, 0x44, 0x41, 0x54];
    let iend_tag: [u8; 4] = [0x49, 0x45, 0x4e, 0x44];
    let empty: Vec<u8> = Vec::new();
    push_chunk(&mut out, &ihdr_tag, ihdr.as_slice());
    push_chunk(&mut out, &idat_tag, z.as_slice());
    push_chunk(&mut out, &iend_tag, empty.as_slice());
    proof {
        assert(sig@ =~= png_signature());
        assert(ihdr_tag@ =~= seq![0x49u8, 0x48, 0x44, 0x52]);
        assert(idat_tag@ =~= seq![0x49u8, 0x44, 0x41, 0x54]);
        assert(iend_tag@ =~= seq![0x49u8, 0x45, 0x4e, 0x44]);
        assert(empty@ =~= Seq::<u8>::empty());
        assert(out@ =~= png_spec(width, height, zlib_stored_spec(scanlines(pixels@, width as nat, pixels@.len()))));
    }
    Ok(out)
}

} // verus!
