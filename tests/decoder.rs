use pint::decoder::{
    apply_filter, avg_filter, bytes_to_int, check_valid_png, decode_png, defilter_image,
    do_filter, infer_codel_size, min_run_length, paeth_filter, parse_ihdr, parse_plte,
    parse_png_chunks, sub_filter, up_filter, ChunkType, ColorType, DecodeError, IHDRData,
};
use pint::types::RGB;

const SIGNATURE: [u8; 8] = [137, 80, 78, 71, 13, 10, 26, 10];

fn adler32(data: &[u8]) -> u32 {
    let mut a: u32 = 1;
    let mut b: u32 = 0;
    for &byte in data {
        a = (a + byte as u32) % 65521;
        b = (b + a) % 65521;
    }
    (b << 16) | a
}

/// A zlib stream holding `data` in one stored (uncompressed) block.
fn zlib_stored(data: &[u8]) -> Vec<u8> {
    let mut out = vec![0x78, 0x01, 0x01];
    let len = data.len() as u16;
    out.extend_from_slice(&len.to_le_bytes());
    out.extend_from_slice(&(!len).to_le_bytes());
    out.extend_from_slice(data);
    out.extend_from_slice(&adler32(data).to_be_bytes());
    out
}

fn chunk(kind: &[u8; 4], data: &[u8]) -> Vec<u8> {
    let mut out = Vec::new();
    out.extend_from_slice(&(data.len() as u32).to_be_bytes());
    out.extend_from_slice(kind);
    out.extend_from_slice(data);
    out.extend_from_slice(&[0, 0, 0, 0]);
    out
}

fn header(width: u32, height: u32, depth: u8, color_type: u8) -> Vec<u8> {
    let mut data = Vec::new();
    data.extend_from_slice(&width.to_be_bytes());
    data.extend_from_slice(&height.to_be_bytes());
    data.extend_from_slice(&[depth, color_type, 0, 0, 0]);
    data
}

fn png(width: u32, height: u32, color_type: u8, palette: Option<&[u8]>, raw: &[u8]) -> Vec<u8> {
    let mut out = SIGNATURE.to_vec();
    out.extend(chunk(b"IHDR", &header(width, height, 8, color_type)));
    if let Some(p) = palette {
        out.extend(chunk(b"PLTE", p));
    }
    out.extend(chunk(b"IDAT", &zlib_stored(raw)));
    out.extend(chunk(b"IEND", &[]));
    out
}

const RED: RGB = RGB(255, 0, 0);
const GREEN: RGB = RGB(0, 255, 0);

#[test]
fn reads_big_endian() {
    assert_eq!(bytes_to_int(&[1, 2, 3, 4]), 0x0102_0304);
    assert_eq!(bytes_to_int(&[255, 255, 255, 255]), u32::MAX);
}

#[test]
fn signature_check() {
    assert!(check_valid_png(&SIGNATURE));
    assert!(check_valid_png(&png(1, 1, 2, None, &[0, 1, 2, 3])));
    assert!(!check_valid_png(&[137, 80, 78, 71, 13, 10, 26]));
    assert!(!check_valid_png(&[0u8; 8]));
}

#[test]
fn chunk_parsing() {
    let bytes = chunk(b"IHDR", &[1, 2, 3]);
    let c = parse_png_chunks(&bytes).unwrap();
    assert_eq!(c.chunk_type, ChunkType::IHDR);
    assert_eq!(c.data_len, 3);
    assert_eq!(c.chunk_len, 15);
    assert_eq!(c.data, vec![1, 2, 3]);
    let other = chunk(b"tEXt", &[9]);
    assert_eq!(parse_png_chunks(&other).unwrap().chunk_type, ChunkType::Other);
    assert!(parse_png_chunks(&bytes[..14]).is_none());
}

#[test]
fn header_parsing() {
    let h = parse_ihdr(&header(5, 7, 8, 3)).unwrap();
    assert_eq!(h, IHDRData { width: 5, height: 7, bit_depth: 8, color_type: ColorType::Indexed });
    assert_eq!(parse_ihdr(&header(5, 7, 8, 6)), Err(DecodeError::UnsupportedColorType));
    assert_eq!(parse_ihdr(&header(5, 7, 16, 2)), Err(DecodeError::UnsupportedBitDepth));
    assert_eq!(parse_ihdr(&vec![0, 0, 0, 1]), Err(DecodeError::BadHeader));
}

#[test]
fn palette_parsing() {
    assert_eq!(parse_plte(&vec![1, 2, 3, 4, 5, 6]), Ok(vec![RGB(1, 2, 3), RGB(4, 5, 6)]));
    assert_eq!(parse_plte(&vec![1, 2, 3, 4]), Err(DecodeError::BadPalette));
}

#[test]
fn filter_bytes() {
    assert_eq!(sub_filter(200, 100, 0, 0), 44);
    assert_eq!(up_filter(1, 0, 7, 0), 8);
    // the mean is taken without overflow
    assert_eq!(avg_filter(1, 200, 100, 0), 151);
    // p = 10 + 20 - 15 = 15 is nearest to the upper left byte
    assert_eq!(paeth_filter(1, 10, 20, 15), 16);
    // ties go to the left byte
    assert_eq!(paeth_filter(0, 5, 5, 5), 5);
    assert_eq!(do_filter(9, 1, 2, 3, 4), None);
    assert_eq!(do_filter(0, 1, 2, 3, 4), Some(1));
}

#[test]
fn row_unfiltering() {
    let above = [10u8, 10, 10, 10, 10, 10];
    let raw = [1u8, 2, 3, 4, 5, 6];
    assert_eq!(apply_filter(&raw, &above, 1, 3), Some(vec![1, 2, 3, 5, 7, 9]));
    assert_eq!(apply_filter(&raw, &above, 2, 3), Some(vec![11, 12, 13, 14, 15, 16]));
    assert_eq!(apply_filter(&raw, &above, 5, 3), None);
}

#[test]
fn decodes_truecolor() {
    let raw = [0, 255, 0, 0, 0, 255, 0, 2, 0, 0, 0, 0, 0, 0];
    let img = decode_png(&png(2, 2, 2, None, &raw)).unwrap();
    assert_eq!(img, vec![vec![RED, GREEN], vec![RED, GREEN]]);
}

#[test]
fn decodes_sub_filtered_row() {
    let raw = [1, 10, 20, 30, 5, 5, 5];
    let img = decode_png(&png(2, 1, 2, None, &raw)).unwrap();
    assert_eq!(img, vec![vec![RGB(10, 20, 30), RGB(15, 25, 35)]]);
}

#[test]
fn decodes_indexed() {
    let palette = [255, 0, 0, 0, 255, 0];
    let img = decode_png(&png(2, 1, 3, Some(&palette), &[0, 1, 0])).unwrap();
    assert_eq!(img, vec![vec![GREEN, RED]]);
}

#[test]
fn decode_errors() {
    assert_eq!(decode_png(&vec![0u8; 20]), Err(DecodeError::NotPng));
    assert_eq!(decode_png(&png(2, 1, 3, None, &[0, 1, 0])), Err(DecodeError::MissingPalette));
    let palette = [255, 0, 0];
    assert_eq!(
        decode_png(&png(2, 1, 3, Some(&palette), &[0, 1, 0])),
        Err(DecodeError::BadPaletteIndex)
    );
    assert_eq!(decode_png(&png(1, 1, 2, None, &[7, 1, 2, 3])), Err(DecodeError::UnknownFilter));
    assert_eq!(decode_png(&png(1, 2, 2, None, &[0, 1, 2, 3])), Err(DecodeError::TruncatedData));
    assert_eq!(decode_png(&png(0, 1, 2, None, &[0])), Err(DecodeError::BadDimensions));

    let mut corrupt = png(1, 1, 2, None, &[0, 1, 2, 3]);
    let idat_end = corrupt.len() - 12 - 4 - 1;
    corrupt[idat_end] ^= 0xff;
    assert_eq!(decode_png(&corrupt), Err(DecodeError::Compression));

    let mut no_end = png(1, 1, 2, None, &[0, 1, 2, 3]);
    no_end.truncate(no_end.len() - 12);
    assert_eq!(decode_png(&no_end), Err(DecodeError::MissingEnd));

    let mut cut = png(1, 1, 2, None, &[0, 1, 2, 3]);
    cut.truncate(cut.len() - 14);
    assert_eq!(decode_png(&cut), Err(DecodeError::MalformedChunk));
}

#[test]
fn defilters_decompressed_data() {
    let h = IHDRData { width: 1, height: 2, bit_depth: 8, color_type: ColorType::TrueColorRGB };
    let data = vec![0, 1, 2, 3, 2, 1, 1, 1];
    assert_eq!(
        defilter_image(&data, &h, &Vec::new()),
        Ok(vec![vec![RGB(1, 2, 3)], vec![RGB(2, 3, 4)]])
    );
}

#[test]
fn infers_codel_size() {
    let a = RGB(1, 1, 1);
    let b = RGB(2, 2, 2);
    let img = vec![vec![a, a, b, b], vec![a, a, b, b], vec![b, b, a, a], vec![b, b, a, a]];
    assert_eq!(min_run_length(&img), 2);
    assert_eq!(infer_codel_size(&img), 2);

    let uneven = vec![vec![a, a, a, b, b], vec![a, a, a, b, b]];
    assert_eq!(min_run_length(&uneven), 2);
    assert_eq!(infer_codel_size(&uneven), 1);

    let single = vec![vec![a, b, b]];
    assert_eq!(infer_codel_size(&single), 1);
}
