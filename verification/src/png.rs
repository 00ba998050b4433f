//! Image files: PNG with straight alpha, and PPM over white.

use crate::argb;
use crate::argb::{alpha, blue, green, min255, red};
use crate::pixel;
use crate::pixel::argb_to_rgba;
use vstd::prelude::*;

verus! {

/// The most bytes in one stored block.
pub const BLOCK_MAX: usize = 65535;

/// The four bytes of a number, highest first.
pub open spec fn be_bytes(n: u32) -> Seq<u8> {
    seq![
        (n / 0x100_0000) as u8,
        (n / 0x1_0000 % 0x100) as u8,
        (n / 0x100 % 0x100) as u8,
        (n % 0x100) as u8,
    ]
}

/// The two bytes of a number, lowest first.
pub open spec fn le_bytes(n: u16) -> Seq<u8> {
    seq![(n % 0x100) as u8, (n / 0x100) as u8]
}

/// One step of the cyclic redundancy check.
pub open spec fn crc_step(c: u32) -> u32 {
    if c & 1 != 0 {
        (c >> 1) ^ 0xedb8_8320
    } else {
        c >> 1
    }
}

/// `n` steps of the cyclic redundancy check.
pub open spec fn crc_steps(c: u32, n: nat) -> u32
    decreases n,
{
    if n == 0 {
        c
    } else {
        crc_step(crc_steps(c, (n - 1) as nat))
    }
}

/// The check's register after some bytes.
pub open spec fn crc_register(bytes: Seq<u8>) -> u32
    decreases bytes.len(),
{
    if bytes.len() == 0 {
        0xffff_ffff
    } else {
        crc_steps(crc_register(bytes.drop_last()) ^ (bytes.last() as u32), 8)
    }
}

/// The cyclic redundancy check of some bytes.
pub open spec fn crc(bytes: Seq<u8>) -> u32 {
    !crc_register(bytes)
}

/// The two sums of the Adler checksum.
pub open spec fn adler_sums(bytes: Seq<u8>) -> (int, int)
    decreases bytes.len(),
{
    if bytes.len() == 0 {
        (1, 0)
    } else {
        let (a, b) = adler_sums(bytes.drop_last());
        let s = (a + bytes.last()) % 65521;
        (s, (b + s) % 65521)
    }
}

/// The Adler checksum of some bytes.
pub open spec fn adler(bytes: Seq<u8>) -> u32 {
    (adler_sums(bytes).1 * 0x1_0000 + adler_sums(bytes).0) as u32
}

/// One chunk of a PNG file: the length of its data, its kind, its data and their check.
pub open spec fn chunk(kind: Seq<u8>, data: Seq<u8>) -> Seq<u8> {
    be_bytes((data.len() % 0x1_0000_0000) as u32) + kind + data + be_bytes(crc(kind + data))
}

/// One stored block.
pub open spec fn block(data: Seq<u8>, last: bool) -> Seq<u8> {
    seq![
        if last {
            1u8
        } else {
            0u8
        },
    ] + le_bytes(data.len() as u16) + le_bytes((65535 - data.len()) as u16) + data
}

/// Data in stored blocks, each as large as it can be.
pub open spec fn stored(data: Seq<u8>) -> Seq<u8>
    decreases data.len(),
{
    if data.len() == 0 {
        Seq::empty()
    } else if data.len() <= BLOCK_MAX {
        block(data, true)
    } else {
        block(data.take(BLOCK_MAX as int), false) + stored(data.skip(BLOCK_MAX as int))
    }
}

/// Data in a stored stream with its checksum.
pub open spec fn zlib(data: Seq<u8>) -> Seq<u8> {
    seq![0x78u8, 0x01u8] + stored(data) + be_bytes(adler(data))
}

/// The rows of the first `k` pixels in straight alpha, each after a zero byte.
pub open spec fn scanlines(pixels: Seq<u32>, width: int, k: int) -> Seq<u8>
    decreases k,
{
    if k <= 0 {
        Seq::empty()
    } else {
        let before = scanlines(pixels, width, k - 1);
        let start = if (k - 1) % width == 0 {
            before.push(0)
        } else {
            before
        };
        start + pixel::rgba_of(pixels[k - 1])
    }
}

/// The first bytes of every PNG file.
pub open spec fn signature() -> Seq<u8> {
    seq![0x89u8, 0x50u8, 0x4eu8, 0x47u8, 0x0du8, 0x0au8, 0x1au8, 0x0au8]
}

/// The PNG file of a square image.
pub open spec fn png(size: u32, pixels: Seq<u32>) -> Seq<u8> {
    let width = if size > 0 {
        size as int
    } else {
        1
    };
    signature() + chunk(
        seq![0x49u8, 0x48u8, 0x44u8, 0x52u8],
        be_bytes(size) + be_bytes(size) + seq![8u8, 6u8, 0u8, 0u8, 0u8],
    ) + chunk(
        seq![0x49u8, 0x44u8, 0x41u8, 0x54u8],
        zlib(scanlines(pixels, width, pixels.len() as int)),
    ) + chunk(seq![0x49u8, 0x45u8, 0x4eu8, 0x44u8], Seq::empty())
}

fn append(out: &mut Vec<u8>, bytes: &[u8])
    ensures
        final(out)@ == old(out)@ + bytes@,
{
    let mut i: usize = 0;
    while i < bytes.len()
        invariant
            i <= bytes@.len(),
            out@ == old(out)@ + bytes@.take(i as int),
        decreases bytes@.len() - i,
    {
        out.push(bytes[i]);
        i += 1;
        assert(out@ =~= old(out)@ + bytes@.take(i as int));
    }
    assert(bytes@.take(i as int) =~= bytes@);
}

fn append_be(out: &mut Vec<u8>, n: u32)
    ensures
        final(out)@ == old(out)@ + be_bytes(n),
{
    out.push((n / 0x100_0000) as u8);
    out.push((n / 0x1_0000 % 0x100) as u8);
    out.push((n / 0x100 % 0x100) as u8);
    out.push((n % 0x100) as u8);
    assert(out@ =~= old(out)@ + be_bytes(n));
}

fn append_le(out: &mut Vec<u8>, n: u16)
    ensures
        final(out)@ == old(out)@ + le_bytes(n),
{
    out.push((n % 0x100) as u8);
    out.push((n / 0x100) as u8);
    assert(out@ =~= old(out)@ + le_bytes(n));
}

fn crc_more(register: u32, bytes: &[u8], Ghost(before): Ghost<Seq<u8>>) -> (r: u32)
    requires
        register == crc_register(before),
    ensures
        r == crc_register(before + bytes@),
{
    let mut c: u32 = register;
    let mut i: usize = 0;
    assert(before + bytes@.take(0) =~= before);
    while i < bytes.len()
        invariant
            i <= bytes@.len(),
            c == crc_register(before + bytes@.take(i as int)),
        decreases bytes@.len() - i,
    {
        let ghost so_far = before + bytes@.take(i as int);
        let start: u32 = c ^ (bytes[i] as u32);
        c = start;
        let mut k: u32 = 0;
        while k < 8
            invariant
                k <= 8,
                c == crc_steps(start, k as nat),
            decreases 8 - k,
        {
            c = if c & 1 != 0 {
                (c >> 1) ^ 0xedb8_8320
            } else {
                c >> 1
            };
            k += 1;
        }
        i += 1;
        proof {
            let next = before + bytes@.take(i as int);
            assert(next.drop_last() =~= so_far);
            assert(next.last() == bytes@[i - 1]);
        }
    }
    assert(bytes@.take(i as int) =~= bytes@);
    c
}

/// Appends one chunk.
pub fn png_chunk(out: &mut Vec<u8>, kind: &[u8; 4], data: &[u8])
    ensures
        final(out)@ == old(out)@ + chunk(kind@, data@),
{
    let length: u64 = data.len() as u64 % 0x1_0000_0000;
    append_be(out, length as u32);
    append(out, kind.as_slice());
    append(out, data);
    let c: u32 = crc_more(0xffff_ffff, kind.as_slice(), Ghost(Seq::empty()));
    assert(Seq::<u8>::empty() + kind@ =~= kind@);
    let c: u32 = crc_more(c, data, Ghost(kind@));
    append_be(out, !c);
    assert(out@ =~= old(out)@ + chunk(kind@, data@));
}

fn append_block(out: &mut Vec<u8>, data: &[u8], from: usize, to: usize, last: bool)
    requires
        from <= to <= data@.len(),
        to - from <= BLOCK_MAX,
    ensures
        final(out)@ == old(out)@ + block(data@.subrange(from as int, to as int), last),
{
    let length: u16 = (to - from) as u16;
    out.push(
        if last {
            1
        } else {
            0
        },
    );
    append_le(out, length);
    append_le(out, 65535 - length);
    let ghost head = out@;
    let mut i: usize = from;
    assert(data@.subrange(from as int, from as int) =~= Seq::empty());
    while i < to
        invariant
            from <= i <= to <= data@.len(),
            out@ == head + data@.subrange(from as int, i as int),
        decreases to - i,
    {
        out.push(data[i]);
        i += 1;
        assert(out@ =~= head + data@.subrange(from as int, i as int));
    }
    assert(out@ =~= old(out)@ + block(data@.subrange(from as int, to as int), last));
}

fn append_stored(out: &mut Vec<u8>, data: &[u8])
    ensures
        final(out)@ == old(out)@ + stored(data@),
{
    let n: usize = data.len();
    let mut at: usize = 0;
    let ghost all = old(out)@ + stored(data@);
    assert(data@.skip(0) =~= data@);
    while n - at > BLOCK_MAX
        invariant
            n == data@.len(),
            at <= n,
            out@ + stored(data@.skip(at as int)) == all,
        decreases n - at,
    {
        let ghost rest = data@.skip(at as int);
        let ghost was = out@;
        append_block(out, data, at, at + BLOCK_MAX, false);
        proof {
            assert(rest.take(BLOCK_MAX as int) =~= data@.subrange(at as int, at + BLOCK_MAX));
            assert(rest.skip(BLOCK_MAX as int) =~= data@.skip(at + BLOCK_MAX));
            let b = block(rest.take(BLOCK_MAX as int), false);
            let tail = stored(rest.skip(BLOCK_MAX as int));
            assert((was + b) + tail =~= was + (b + tail));
        }
        at += BLOCK_MAX;
    }
    if at < n {
        append_block(out, data, at, n, true);
        assert(data@.skip(at as int) =~= data@.subrange(at as int, n as int));
    } else {
        assert(data@.skip(at as int) =~= Seq::empty());
        assert(out@ =~= all);
    }
}

fn adler_of(data: &[u8]) -> (r: u32)
    ensures
        r == adler(data@),
{
    let mut s1: u32 = 1;
    let mut s2: u32 = 0;
    let mut i: usize = 0;
    while i < data.len()
        invariant
            i <= data@.len(),
            s1 < 65521,
            s2 < 65521,
            (s1 as int, s2 as int) == adler_sums(data@.take(i as int)),
        decreases data@.len() - i,
    {
        let ghost so_far = data@.take(i as int);
        s1 = (s1 + data[i] as u32) % 65521;
        s2 = (s2 + s1) % 65521;
        i += 1;
        proof {
            let next = data@.take(i as int);
            assert(next.drop_last() =~= so_far);
            assert(next.last() == data@[i - 1]);
        }
    }
    assert(data@.take(i as int) =~= data@);
    s2 * 0x1_0000 + s1
}

fn append_rows(pixels: &[u32], width: usize) -> (raw: Vec<u8>)
    requires
        width > 0,
    ensures
        raw@ == scanlines(pixels@, width as int, pixels@.len() as int),
{
    let mut raw: Vec<u8> = Vec::new();
    let mut k: usize = 0;
    while k < pixels.len()
        invariant
            width > 0,
            k <= pixels@.len(),
            raw@ == scanlines(pixels@, width as int, k as int),
        decreases pixels@.len() - k,
    {
        if k % width == 0 {
            raw.push(0);
        }
        let rgba = argb_to_rgba(pixels[k]);
        append(&mut raw, rgba.as_slice());
        k += 1;
    }
    raw
}

/// Writes the PNG file of a square image.
pub fn encode_png(size: u32, pixels: &[u32]) -> (out: Vec<u8>)
    ensures
        out@ == png(size, pixels@),
{
    let width: usize = if size > 0 {
        size as usize
    } else {
        1
    };
    let raw = append_rows(pixels, width);
    let mut idat: Vec<u8> = Vec::new();
    idat.push(0x78);
    idat.push(0x01);
    append_stored(&mut idat, raw.as_slice());
    let sum = adler_of(raw.as_slice());
    append_be(&mut idat, sum);
    assert(idat@ =~= zlib(raw@));

    let mut out: Vec<u8> = Vec::new();
    let head: [u8; 8] = [0x89, 0x50, 0x4e, 0x47, 0x0d, 0x0a, 0x1a, 0x0a];
    append(&mut out, head.as_slice());
    assert(out@ =~= signature());
    let mut ihdr: Vec<u8> = Vec::new();
    append_be(&mut ihdr, size);
    append_be(&mut ihdr, size);
    let format: [u8; 5] = [8, 6, 0, 0, 0];
    append(&mut ihdr, format.as_slice());
    assert(ihdr@ =~= be_bytes(size) + be_bytes(size) + seq![8u8, 6u8, 0u8, 0u8, 0u8]);
    let kind: [u8; 4] = [0x49, 0x48, 0x44, 0x52];
    png_chunk(&mut out, &kind, ihdr.as_slice());
    assert(kind@ =~= seq![0x49u8, 0x48u8, 0x44u8, 0x52u8]);
    let kind: [u8; 4] = [0x49, 0x44, 0x41, 0x54];
    png_chunk(&mut out, &kind, idat.as_slice());
    assert(kind@ =~= seq![0x49u8, 0x44u8, 0x41u8, 0x54u8]);
    let kind: [u8; 4] = [0x49, 0x45, 0x4e, 0x44];
    let nothing: Vec<u8> = Vec::new();
    png_chunk(&mut out, &kind, nothing.as_slice());
    assert(kind@ =~= seq![0x49u8, 0x45u8, 0x4eu8, 0x44u8]);
    assert(nothing@ =~= Seq::empty());
    out
}

/// What a reader gets out of stored blocks: the data up to the block marked as the last, or nothing
/// where they are not whole.
pub open spec fn read_stored(bytes: Seq<u8>) -> Option<Seq<u8>>
    decreases bytes.len(),
{
    if bytes.len() < 5 {
        None
    } else {
        let n = bytes[1] + bytes[2] * 0x100;
        let complement = bytes[3] + bytes[4] * 0x100;
        if n + complement != 65535 || bytes.len() < 5 + n {
            None
        } else {
            let data = bytes.subrange(5, 5 + n);
            if bytes[0] == 1 {
                Some(data)
            } else {
                match read_stored(bytes.skip(5 + n)) {
                    Some(rest) => Some(data + rest),
                    None => None,
                }
            }
        }
    }
}

/// A reader of stored blocks gets back what was stored.
pub proof fn law_stored_data_is_read_back(data: Seq<u8>)
    requires
        data.len() > 0,
    ensures
        read_stored(stored(data)) == Some(data),
    decreases data.len(),
{
    let s = stored(data);
    if data.len() <= BLOCK_MAX {
        lemma_block_header(data, true, Seq::empty());
        assert(s + Seq::empty() =~= s);
        assert(s.subrange(5, data.len() as int + 5) =~= data);
    } else {
        let head = data.take(BLOCK_MAX as int);
        let tail = data.skip(BLOCK_MAX as int);
        lemma_block_header(head, false, stored(tail));
        law_stored_data_is_read_back(tail);
        assert(s.subrange(5, 5 + BLOCK_MAX) =~= head);
        assert(s.skip(5 + BLOCK_MAX) =~= stored(tail));
        assert(head + tail =~= data);
    }
}

/// What the first bytes of a block say.
proof fn lemma_block_header(data: Seq<u8>, last: bool, more: Seq<u8>)
    requires
        data.len() <= BLOCK_MAX,
    ensures
        ({
            let s = block(data, last) + more;
            &&& s.len() == 5 + data.len() + more.len()
            &&& (s[0] == 1) == last
            &&& s[1] + s[2] * 0x100 == data.len()
            &&& s[3] + s[4] * 0x100 == 65535 - data.len()
        }),
{
}

/// A pixel over white.
pub open spec fn over_white(p: u32) -> Seq<u8> {
    let inv = 255 - argb::alpha_of(p);
    seq![
        argb::clamp255(argb::red_of(p) + inv) as u8,
        argb::clamp255(argb::green_of(p) + inv) as u8,
        argb::clamp255(argb::blue_of(p) + inv) as u8,
    ]
}

/// The first `k` pixels over white.
pub open spec fn white_pixels(pixels: Seq<u32>, k: int) -> Seq<u8>
    decreases k,
{
    if k <= 0 {
        Seq::empty()
    } else {
        white_pixels(pixels, k - 1) + over_white(pixels[k - 1])
    }
}

/// The decimal digits of a number, as bytes.
pub open spec fn decimal(n: nat) -> Seq<u8>
    decreases n,
{
    if n < 10 {
        seq![(0x30 + n) as u8]
    } else {
        decimal(n / 10).push((0x30 + n % 10) as u8)
    }
}

/// The PPM file of a square image over white.
pub open spec fn ppm(size: u32, pixels: Seq<u32>) -> Seq<u8> {
    seq![0x50u8, 0x36u8, 0x0au8] + decimal(size as nat) + seq![0x20u8] + decimal(size as nat) + seq![
        0x0au8,
        0x32u8,
        0x35u8,
        0x35u8,
        0x0au8,
    ] + white_pixels(pixels, pixels.len() as int)
}

fn append_number(out: &mut Vec<u8>, n: u32)
    ensures
        final(out)@ == old(out)@ + decimal(n as nat),
    decreases n,
{
    if n >= 10 {
        append_number(out, n / 10);
    }
    out.push((0x30 + n % 10) as u8);
    assert(out@ =~= old(out)@ + decimal(n as nat));
}

/// Writes the PPM file of a square image over white.
pub fn encode_ppm(size: u32, pixels: &[u32]) -> (out: Vec<u8>)
    ensures
        out@ == ppm(size, pixels@),
{
    let mut out: Vec<u8> = Vec::new();
    out.push(0x50);
    out.push(0x36);
    out.push(0x0a);
    append_number(&mut out, size);
    out.push(0x20);
    append_number(&mut out, size);
    let depth: [u8; 5] = [0x0a, 0x32, 0x35, 0x35, 0x0a];
    append(&mut out, depth.as_slice());
    let ghost head = out@;
    assert(head =~= seq![0x50u8, 0x36u8, 0x0au8] + decimal(size as nat) + seq![0x20u8] + decimal(
        size as nat,
    ) + seq![0x0au8, 0x32u8, 0x35u8, 0x35u8, 0x0au8]);
    let mut k: usize = 0;
    assert(head + white_pixels(pixels@, 0) =~= head);
    while k < pixels.len()
        invariant
            k <= pixels@.len(),
            out@ == head + white_pixels(pixels@, k as int),
        decreases pixels@.len() - k,
    {
        let p: u32 = pixels[k];
        let inv: u32 = 255 - alpha(p);
        out.push(min255(red(p) + inv) as u8);
        out.push(min255(green(p) + inv) as u8);
        out.push(min255(blue(p) + inv) as u8);
        k += 1;
        assert(out@ =~= head + white_pixels(pixels@, k as int));
    }
    out
}

/// The bytes of the first `k` pixels as they lie in memory: blue, green, red and alpha.
pub open spec fn raw_pixels(pixels: Seq<u32>, k: int) -> Seq<u8>
    decreases k,
{
    if k <= 0 {
        Seq::empty()
    } else {
        let p = pixels[k - 1];
        raw_pixels(pixels, k - 1) + seq![
            argb::blue_of(p) as u8,
            argb::green_of(p) as u8,
            argb::red_of(p) as u8,
            argb::alpha_of(p) as u8,
        ]
    }
}

/// Writes an image without a header, premultiplied, four bytes for every pixel.
pub fn encode_raw(pixels: &[u32]) -> (out: Vec<u8>)
    ensures
        out@ == raw_pixels(pixels@, pixels@.len() as int),
{
    let mut out: Vec<u8> = Vec::new();
    let mut k: usize = 0;
    while k < pixels.len()
        invariant
            k <= pixels@.len(),
            out@ == raw_pixels(pixels@, k as int),
        decreases pixels@.len() - k,
    {
        let p: u32 = pixels[k];
        out.push(blue(p) as u8);
        out.push(green(p) as u8);
        out.push(red(p) as u8);
        out.push(alpha(p) as u8);
        k += 1;
        assert(out@ =~= raw_pixels(pixels@, k as int));
    }
    out
}

/// The number of the first `k` pixels that are seen.
pub open spec fn seen(pixels: Seq<u32>, k: int) -> nat
    decreases k,
{
    if k <= 0 {
        0
    } else if argb::alpha_of(pixels[k - 1]) > 8 {
        seen(pixels, k - 1) + 1
    } else {
        seen(pixels, k - 1)
    }
}

/// Counts the pixels that are seen: those whose alpha is above eight.
pub fn count_covered(pixels: &[u32]) -> (n: usize)
    ensures
        n == seen(pixels@, pixels@.len() as int),
        n <= pixels@.len(),
{
    let mut n: usize = 0;
    let mut k: usize = 0;
    while k < pixels.len()
        invariant
            k <= pixels@.len(),
            n == seen(pixels@, k as int),
            n <= k,
        decreases pixels@.len() - k,
    {
        if alpha(pixels[k]) > 8 {
            n += 1;
        }
        k += 1;
    }
    n
}

/// A number is written in four bytes, the highest first, or in two, the lowest first.
pub proof fn law_numbers_are_written_in_bytes(n: u32, m: u16)
    ensures
        be_bytes(n).len() == 4,
        be_bytes(n)[0] * 0x100_0000 + be_bytes(n)[1] * 0x1_0000 + be_bytes(n)[2] * 0x100 + be_bytes(n)[3]
            == n,
        le_bytes(m).len() == 2,
        le_bytes(m)[0] + le_bytes(m)[1] * 0x100 == m,
{
}

/// A chunk is the length of its data, its kind, its data, and the check over kind and data.
pub proof fn law_chunks_are_framed(kind: Seq<u8>, data: Seq<u8>)
    requires
        kind.len() == 4,
        data.len() < 0x1_0000_0000,
    ensures
        ({
            let c = chunk(kind, data);
            let n = data.len() as int;
            &&& c.len() == 12 + n
            &&& c[0] * 0x100_0000 + c[1] * 0x1_0000 + c[2] * 0x100 + c[3] == n
            &&& c.subrange(4, 8) == kind
            &&& c.subrange(8, 8 + n) == data
            &&& c[8 + n] * 0x100_0000 + c[9 + n] * 0x1_0000 + c[10 + n] * 0x100 + c[11 + n] == crc(
                c.subrange(4, 8 + n),
            )
        }),
{
    let c = chunk(kind, data);
    let n = data.len() as int;
    assert(c.subrange(4, 8) =~= kind);
    assert(c.subrange(8, 8 + n) =~= data);
    assert(c.subrange(4, 8 + n) =~= kind + data);
    law_numbers_are_written_in_bytes((data.len() % 0x1_0000_0000) as u32, 0);
    law_numbers_are_written_in_bytes(crc(kind + data), 0);
    let (head, tail) = (
        be_bytes((data.len() % 0x1_0000_0000) as u32),
        be_bytes(crc(kind + data)),
    );
    assert(c[0] == head[0] && c[1] == head[1] && c[2] == head[2] && c[3] == head[3]);
    assert(c[8 + n] == tail[0] && c[9 + n] == tail[1] && c[10 + n] == tail[2] && c[11 + n]
        == tail[3]);
}

/// The sum of some bytes.
pub open spec fn byte_sum(bytes: Seq<u8>) -> int
    decreases bytes.len(),
{
    if bytes.len() == 0 {
        0
    } else {
        byte_sum(bytes.drop_last()) + bytes.last()
    }
}

/// The sum of the sums of all beginnings of some bytes.
pub open spec fn running_sum(bytes: Seq<u8>) -> int
    decreases bytes.len(),
{
    if bytes.len() == 0 {
        0
    } else {
        running_sum(bytes.drop_last()) + byte_sum(bytes)
    }
}

/// The Adler sums are one more than the sum of the bytes, and all of these sums added up, both modulo
/// 65521.
pub proof fn law_adler_sums_are_sums(bytes: Seq<u8>)
    ensures
        adler_sums(bytes).0 == (1 + byte_sum(bytes)) % 65521,
        adler_sums(bytes).1 == (bytes.len() + running_sum(bytes)) % 65521,
        adler(bytes) == adler_sums(bytes).1 * 0x1_0000 + adler_sums(bytes).0,
    decreases bytes.len(),
{
    if bytes.len() > 0 {
        law_adler_sums_are_sums(bytes.drop_last());
    }
}

proof fn lemma_quotient(x: int, w: int, q: int, r: int)
    requires
        0 <= r < w,
        x == w * q + r,
    ensures
        x / w == q,
        x % w == r,
{
    assert(w * q == q * w) by (nonlinear_arith);
    vstd::arithmetic::div_mod::lemma_fundamental_div_mod_converse(x, w, q, r);
}

proof fn lemma_scanline_len(pixels: Seq<u32>, w: int, k: int)
    requires
        w > 0,
        k >= 0,
    ensures
        scanlines(pixels, w, k).len() == 4 * k + (k + w - 1) / w,
    decreases k,
{
    if k > 0 {
        lemma_scanline_len(pixels, w, k - 1);
        let j = k - 1;
        let (q, r) = (j / w, j % w);
        vstd::arithmetic::div_mod::lemma_fundamental_div_mod(j, w);
        assert(w * (q + 1) == w * q + w) by (nonlinear_arith);
        if r == 0 {
            lemma_quotient(k + w - 1, w, q + 1, 0);
            lemma_quotient(j + w - 1, w, q, w - 1);
        } else {
            lemma_quotient(k + w - 1, w, q + 1, r);
            lemma_quotient(j + w - 1, w, q + 1, r - 1);
        }
        pixel::law_bytes_are_red_green_blue_alpha(pixels[j]);
    } else {
        assert(w * 0 == 0);
        lemma_quotient(w - 1, w, 0, w - 1);
    }
}

proof fn lemma_scanline_prefix(pixels: Seq<u32>, w: int, k: int, m: int, i: int)
    requires
        0 <= k <= m,
        0 <= i < scanlines(pixels, w, k).len(),
    ensures
        i < scanlines(pixels, w, m).len(),
        scanlines(pixels, w, m)[i] == scanlines(pixels, w, k)[i],
    decreases m - k,
{
    if k < m {
        lemma_scanline_prefix(pixels, w, k, m - 1, i);
    }
}

/// Every row of an image is a zero byte and its pixels from left to right, four bytes each.
pub proof fn law_rows_start_with_a_filter_byte(
    pixels: Seq<u32>,
    w: int,
    h: int,
    x: int,
    y: int,
    j: int,
)
    requires
        pixels.len() == w * h,
        0 <= x < w,
        0 <= y < h,
        0 <= j < 4,
    ensures
        ({
            let s = scanlines(pixels, w, w * h);
            &&& s.len() == h * (4 * w + 1)
            &&& s[y * (4 * w + 1)] == 0
            &&& s[y * (4 * w + 1) + 1 + 4 * x + j] == pixel::rgba_of(pixels[y * w + x])[j]
        }),
{
    let n = w * h;
    let k = y * w + x;
    assert(0 <= y * w && y * w + x < n) by (nonlinear_arith)
        requires
            0 <= x < w,
            0 <= y < h,
            n == w * h,
    ;
    lemma_scanline_len(pixels, w, n);
    assert(h * (4 * w + 1) == 4 * n + h && w * h + w - 1 == w * h + (w - 1)) by (nonlinear_arith)
        requires
            n == w * h,
    ;
    lemma_quotient(n + w - 1, w, h, w - 1);
    assert(y * (4 * w + 1) == 4 * (y * w) + y) by (nonlinear_arith);
    // the row's first byte stands before the row's first pixel
    lemma_scanline_len(pixels, w, y * w);
    assert(w * y == y * w) by (nonlinear_arith);
    lemma_quotient(y * w + w - 1, w, y, w - 1);
    lemma_quotient(y * w, w, y, 0);
    assert(scanlines(pixels, w, y * w).len() == 4 * (y * w) + y);
    lemma_scanline_prefix(pixels, w, y * w + 1, n, 4 * (y * w) + y);
    // the pixel stands behind those before it
    lemma_scanline_len(pixels, w, k);
    lemma_quotient(k, w, y, x);
    pixel::law_bytes_are_red_green_blue_alpha(pixels[k]);
    let before = scanlines(pixels, w, k).len() as int;
    if x == 0 {
        assert(before == 4 * k + y);
    } else {
        assert(w * (y + 1) == w * y + w) by (nonlinear_arith);
        lemma_quotient(k + w - 1, w, y + 1, x - 1);
        assert(before == 4 * k + y + 1);
    }
    let at = y * (4 * w + 1) + 1 + 4 * x + j;
    assert(4 * k == 4 * (y * w) + 4 * x);
    let one_more = scanlines(pixels, w, k + 1);
    assert(one_more[at] == pixel::rgba_of(pixels[k])[j]);
    lemma_scanline_prefix(pixels, w, k + 1, n, at);
}

proof fn lemma_small_chunk(kind: Seq<u8>, data: Seq<u8>)
    requires
        kind.len() == 4,
        data.len() < 256,
    ensures
        ({
            let c = chunk(kind, data);
            &&& c.len() == 12 + data.len()
            &&& c.take(8) == seq![0u8, 0u8, 0u8, data.len() as u8] + kind
            &&& c.subrange(8, 8 + data.len() as int) == data
        }),
{
    let c = chunk(kind, data);
    law_chunks_are_framed(kind, data);
    assert(c[0] == 0 && c[1] == 0 && c[2] == 0 && c[3] == data.len());
    assert forall|i: int| 0 <= i < 8 implies c.take(8)[i] == (seq![
        0u8,
        0u8,
        0u8,
        data.len() as u8,
    ] + kind)[i] by {
        if i >= 4 {
            assert(c.subrange(4, 8)[i - 4] == c[i]);
        }
    }
    assert(c.take(8) =~= seq![0u8, 0u8, 0u8, data.len() as u8] + kind);
}

/// A file is its signature, a header that gives the size twice and the format, its pixels, and an empty
/// chunk at the end. The format is eight bits for each of red, green, blue and alpha, not interlaced.
pub proof fn law_files_start_with_signature_and_header(size: u32, pixels: Seq<u32>)
    requires
        size > 0,
    ensures
        ({
            let f = png(size, pixels);
            let lines = scanlines(pixels, size as int, pixels.len() as int);
            let image = chunk(
                seq![0x49u8, 0x44u8, 0x41u8, 0x54u8],
                seq![0x78u8, 0x01u8] + stored(lines) + be_bytes(adler(lines)),
            );
            &&& f.len() == 45 + image.len()
            &&& f.subrange(0, 8) == seq![0x89u8, 0x50u8, 0x4eu8, 0x47u8, 0x0du8, 0x0au8, 0x1au8, 0x0au8]
            &&& f.subrange(8, 16) == seq![0u8, 0u8, 0u8, 13u8] + seq![0x49u8, 0x48u8, 0x44u8, 0x52u8]
            &&& f.subrange(16, 29) == be_bytes(size) + be_bytes(size) + seq![8u8, 6u8, 0u8, 0u8, 0u8]
            &&& f.subrange(33, 33 + image.len() as int) == image
            &&& f.subrange(33 + image.len() as int, 41 + image.len() as int) == seq![0u8, 0u8, 0u8, 0u8] + seq![
                0x49u8,
                0x45u8,
                0x4eu8,
                0x44u8,
            ]
        }),
{
    let f = png(size, pixels);
    let ihdr = be_bytes(size) + be_bytes(size) + seq![8u8, 6u8, 0u8, 0u8, 0u8];
    let kind = seq![0x49u8, 0x48u8, 0x44u8, 0x52u8];
    let end = seq![0x49u8, 0x45u8, 0x4eu8, 0x44u8];
    lemma_small_chunk(kind, ihdr);
    lemma_small_chunk(end, Seq::empty());
    let lines = scanlines(pixels, size as int, pixels.len() as int);
    let d = chunk(seq![0x49u8, 0x44u8, 0x41u8, 0x54u8], zlib(lines));
    lemma_four_parts(signature(), chunk(kind, ihdr), d, chunk(end, Seq::empty()));
}

proof fn lemma_four_parts(a: Seq<u8>, c: Seq<u8>, d: Seq<u8>, e: Seq<u8>)
    requires
        a.len() == 8,
        c.len() == 25,
        e.len() == 12,
    ensures
        ({
            let f = a + c + d + e;
            &&& f.len() == 45 + d.len()
            &&& f.subrange(0, 8) == a
            &&& f.subrange(8, 16) == c.take(8)
            &&& f.subrange(16, 29) == c.subrange(8, 21)
            &&& f.subrange(33, 33 + d.len() as int) == d
            &&& f.subrange(33 + d.len() as int, 41 + d.len() as int) == e.take(8)
        }),
{
    let f = a + c + d + e;
    assert(f.subrange(0, 8) =~= a);
    assert(f.subrange(8, 16) =~= c.take(8));
    assert(f.subrange(16, 29) =~= c.subrange(8, 21));
    assert(f.subrange(33, 33 + d.len() as int) =~= d);
    assert(f.subrange(33 + d.len() as int, 41 + d.len() as int) =~= e.take(8));
}

/// Over white an opaque pixel is itself, a clear one is white, and any premultiplied one gets as much
/// white as it lacks alpha.
pub proof fn law_white_shows_through(p: u32)
    ensures
        over_white(p).len() == 3,
        argb::red_of(p) <= argb::alpha_of(p) ==> over_white(p)[0] == argb::red_of(p) + 255
            - argb::alpha_of(p),
        argb::green_of(p) <= argb::alpha_of(p) ==> over_white(p)[1] == argb::green_of(p) + 255
            - argb::alpha_of(p),
        argb::blue_of(p) <= argb::alpha_of(p) ==> over_white(p)[2] == argb::blue_of(p) + 255
            - argb::alpha_of(p),
        argb::red_of(p) >= argb::alpha_of(p) ==> over_white(p)[0] == 255,
        argb::green_of(p) >= argb::alpha_of(p) ==> over_white(p)[1] == 255,
        argb::blue_of(p) >= argb::alpha_of(p) ==> over_white(p)[2] == 255,
{
    argb::law_channels_are_bytes(p);
}

/// Pixels over white stand one after another, red, green and blue.
pub proof fn law_white_pixels_stand_in_order(pixels: Seq<u32>, k: int, i: int, j: int)
    requires
        0 <= i < k,
        0 <= j < 3,
    ensures
        white_pixels(pixels, k).len() == 3 * k,
        white_pixels(pixels, k)[3 * i + j] == over_white(pixels[i])[j],
    decreases k,
{
    if k == 1 {
        reveal_with_fuel(white_pixels, 2);
    } else if i < k - 1 {
        law_white_pixels_stand_in_order(pixels, k - 1, i, j);
    } else {
        law_white_pixels_stand_in_order(pixels, k - 1, 0, 0);
    }
}

/// Raw pixels stand one after another, each as a number of four bytes, the lowest first.
pub proof fn law_raw_pixels_are_little_endian(pixels: Seq<u32>, k: int, i: int)
    requires
        0 <= i < k,
    ensures
        ({
            let raw = raw_pixels(pixels, k);
            &&& raw.len() == 4 * k
            &&& raw[4 * i] + 0x100 * raw[4 * i + 1] + 0x1_0000 * raw[4 * i + 2] + 0x100_0000 * raw[4
                * i + 3] == pixels[i]
        }),
    decreases k,
{
    if k == 1 {
        reveal_with_fuel(raw_pixels, 2);
    } else if i < k - 1 {
        law_raw_pixels_are_little_endian(pixels, k - 1, i);
    } else {
        law_raw_pixels_are_little_endian(pixels, k - 1, 0);
    }
    argb::law_channels_are_bytes(pixels[i]);
}

/// The number that decimal digits stand for, read from left to right.
pub open spec fn read_decimal(bytes: Seq<u8>) -> int
    decreases bytes.len(),
{
    if bytes.len() == 0 {
        0
    } else {
        10 * read_decimal(bytes.drop_last()) + (bytes.last() - 0x30)
    }
}

/// A number that is written in digits is read back, and has no digit more than it needs.
pub proof fn law_decimals_are_read_back(n: nat)
    ensures
        read_decimal(decimal(n)) == n,
        decimal(n).len() > 0,
        forall|i: int| 0 <= i < decimal(n).len() ==> 0x30 <= #[trigger] decimal(n)[i] <= 0x39,
        n > 0 ==> decimal(n)[0] != 0x30,
    decreases n,
{
    if n < 10 {
        assert(decimal(n).drop_last() =~= Seq::empty());
        reveal_with_fuel(read_decimal, 2);
    } else {
        law_decimals_are_read_back(n / 10);
        assert(decimal(n).drop_last() =~= decimal(n / 10));
    }
}

/// A pixel is seen where its alpha is nine or more.
pub proof fn law_faint_pixels_are_not_seen(pixels: Seq<u32>, k: int)
    requires
        0 < k,
    ensures
        seen(pixels, 0) == 0,
        argb::alpha_of(pixels[k - 1]) >= 9 ==> seen(pixels, k) == seen(pixels, k - 1) + 1,
        argb::alpha_of(pixels[k - 1]) < 9 ==> seen(pixels, k) == seen(pixels, k - 1),
{
}

/// A PPM file starts with its kind, gives the size twice and the largest value of a channel, 255, and goes
/// on with the pixels over white.
pub proof fn law_ppm_files_start_with_their_size(size: u32, pixels: Seq<u32>)
    ensures
        ppm(size, pixels) == seq![0x50u8, 0x36u8, 0x0au8] + decimal(size as nat) + seq![0x20u8] + decimal(
            size as nat,
        ) + (seq![0x0au8] + decimal(255) + seq![0x0au8]) + white_pixels(
            pixels,
            pixels.len() as int,
        ),
{
    reveal_with_fuel(decimal, 3);
    assert(seq![0x0au8] + decimal(255) + seq![0x0au8] =~= seq![
        0x0au8,
        0x32u8,
        0x35u8,
        0x35u8,
        0x0au8,
    ]);
}

} // verus!
