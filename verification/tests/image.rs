//! Image files.

use tlottie::png::{count_covered, encode_png, encode_ppm, encode_raw, png_chunk};

fn be(bytes: &[u8]) -> u32 {
    u32::from_be_bytes([bytes[0], bytes[1], bytes[2], bytes[3]])
}

#[test]
fn chunks_carry_their_check() {
    let mut out = Vec::new();
    png_chunk(&mut out, b"IEND", &[]);
    assert_eq!(out, [0, 0, 0, 0, b'I', b'E', b'N', b'D', 0xae, 0x42, 0x60, 0x82]);
}

#[test]
fn pngs_hold_straight_rows() {
    let pixels = [0xff12_3456u32, 0x8040_2000, 0, 0xffff_ffff];
    let png = encode_png(2, &pixels);
    assert_eq!(&png[..8], &[0x89, b'P', b'N', b'G', 0x0d, 0x0a, 0x1a, 0x0a]);
    assert_eq!(&png[12..16], b"IHDR");
    assert_eq!((be(&png[16..]), be(&png[20..])), (2, 2));
    assert_eq!(&png[24..29], &[8, 6, 0, 0, 0]);
    let idat = 33;
    let length = be(&png[idat..]) as usize;
    assert_eq!(&png[idat + 4..idat + 8], b"IDAT");
    let data = &png[idat + 8..idat + 8 + length];
    assert_eq!(&data[..2], &[0x78, 0x01]);
    assert_eq!(&data[2..7], &[1, 18, 0, 237, 255]);
    let raw = &data[7..25];
    assert_eq!(raw[0], 0);
    assert_eq!(&raw[1..5], &[0x12, 0x34, 0x56, 0xff]);
    assert_eq!(&raw[5..9], &[128, 64, 0, 128]);
    assert_eq!(&raw[9..], &[0, 0, 0, 0, 0, 255, 255, 255, 255]);
    let (mut a, mut b) = (1u32, 0u32);
    for &v in raw {
        a = (a + v as u32) % 65521;
        b = (b + a) % 65521;
    }
    assert_eq!(be(&data[25..]), (b << 16) | a);
    assert_eq!(&png[png.len() - 8..png.len() - 4], b"IEND");
}

#[test]
fn stored_blocks_give_the_rows_back() {
    let size = 160u32;
    let pixels: Vec<u32> = (0..size * size).map(|i| 0xff00_0000 | i.wrapping_mul(77)).collect();
    let png = encode_png(size, &pixels);
    let length = be(&png[33..]) as usize;
    let data = &png[41..41 + length];
    let mut at = 2;
    let mut raw = Vec::new();
    loop {
        let last = data[at] == 1;
        let n = data[at + 1] as usize + 256 * data[at + 2] as usize;
        raw.extend_from_slice(&data[at + 5..at + 5 + n]);
        at += 5 + n;
        if last {
            break;
        }
    }
    let stride = 4 * size as usize + 1;
    assert_eq!(raw.len(), stride * size as usize);
    for y in 0..size as usize {
        assert_eq!(raw[y * stride], 0);
        for x in 0..size as usize {
            let p = pixels[y * size as usize + x];
            let want = [(p >> 16) as u8, (p >> 8) as u8, p as u8, 255];
            assert_eq!(&raw[y * stride + 1 + 4 * x..y * stride + 5 + 4 * x], &want);
        }
    }
}

#[test]
fn ppms_stand_on_white() {
    let ppm = encode_ppm(12, &[0, 0xff10_2030, 0x8040_2000]);
    assert_eq!(&ppm[..13], b"P6\n12 12\n255\n");
    assert_eq!(&ppm[13..], &[255, 255, 255, 0x10, 0x20, 0x30, 64 + 127, 32 + 127, 127]);
}

#[test]
fn faint_pixels_do_not_count() {
    assert_eq!(count_covered(&[0, 0x0800_0000, 0x0900_0000, 0xff00_0000]), 2);
}

#[test]
fn raw_images_are_little_endian() {
    assert_eq!(encode_raw(&[0x1122_3344, 0xff00_0001]), vec![0x44, 0x33, 0x22, 0x11, 1, 0, 0, 0xff]);
    assert_eq!(encode_raw(&[]), vec![]);
}
