use crate::navigation::{height, well_formed, width};
use crate::types::RGB;
use vstd::prelude::*;

verus! {

/// The two kinds of colour data that images may carry.
#[derive(Copy, Clone, PartialEq, Eq, Structural, Debug)]
pub enum ColorType {
    TrueColorRGB,
    Indexed,
}

impl ColorType {
    /// Bytes per pixel.
    pub fn num_channels(&self) -> (r: usize)
        ensures
            r == channels(*self),
    {
        match self {
            ColorType::TrueColorRGB => 3,
            ColorType::Indexed => 1,
        }
    }
}

pub open spec fn channels(c: ColorType) -> int {
    match c {
        ColorType::TrueColorRGB => 3,
        ColorType::Indexed => 1,
    }
}

/// The fields of the header chunk that decoding needs.
#[derive(Copy, Clone, PartialEq, Eq, Structural, Debug)]
pub struct IHDRData {
    pub width: u32,
    pub height: u32,
    pub bit_depth: u8,
    pub color_type: ColorType,
}

/// Why an image could not be decoded.
#[derive(Copy, Clone, PartialEq, Eq, Structural, Debug)]
pub enum DecodeError {
    /// The file does not start with the eight signature bytes.
    NotPng,
    /// A chunk's length runs past the end of the file.
    MalformedChunk,
    /// The file ends before the end chunk.
    MissingEnd,
    /// Image data or the end chunk comes before the header.
    MissingHeader,
    /// The header chunk is shorter than its fields.
    BadHeader,
    /// A colour type other than truecolour or indexed.
    UnsupportedColorType,
    /// A bit depth other than 8.
    UnsupportedBitDepth,
    /// A palette whose length is not a multiple of three.
    BadPalette,
    /// Indexed image data without a palette before it.
    MissingPalette,
    /// The compressed image data does not inflate.
    Compression,
    /// The decompressed data is shorter than the header promises.
    TruncatedData,
    /// A row names a filter that does not exist.
    UnknownFilter,
    /// A pixel names an entry that the palette does not have.
    BadPaletteIndex,
    /// A side of the image is zero or does not fit in `i32`.
    BadDimensions,
}

/// The big-endian value of four bytes.
pub open spec fn be_u32(b: Seq<u8>) -> int {
    b[0] * 0x100_0000 + b[1] * 0x1_0000 + b[2] * 0x100 + b[3]
}

/// Reads a big-endian 32-bit unsigned integer.
pub fn bytes_to_int(bytes_arr: &[u8]) -> (r: u32)
    requires
        bytes_arr@.len() == 4,
    ensures
        r == be_u32(bytes_arr@),
{
    let b0 = bytes_arr[0] as u32;
    let b1 = bytes_arr[1] as u32;
    let b2 = bytes_arr[2] as u32;
    let b3 = bytes_arr[3] as u32;
    b0 * 0x100_0000 + b1 * 0x1_0000 + b2 * 0x100 + b3
}

/// The kinds of chunk that decoding reads; all others are skipped.
#[derive(Copy, Clone, PartialEq, Eq, Structural, Debug)]
pub enum ChunkType {
    IHDR,
    PLTE,
    IDAT,
    IEND,
    Other,
}

/// The kind named by four type bytes.
pub open spec fn chunk_type_of(b: Seq<u8>) -> ChunkType {
    if b == seq![73u8, 72u8, 68u8, 82u8] {
        ChunkType::IHDR
    } else if b == seq![80u8, 76u8, 84u8, 69u8] {
        ChunkType::PLTE
    } else if b == seq![73u8, 68u8, 65u8, 84u8] {
        ChunkType::IDAT
    } else if b == seq![73u8, 69u8, 78u8, 68u8] {
        ChunkType::IEND
    } else {
        ChunkType::Other
    }
}

/// A chunk: its kind, the length of its data, its length with length,
/// type and checksum fields, and its data.
pub struct PngChunk {
    pub chunk_type: ChunkType,
    pub data_len: usize,
    pub chunk_len: usize,
    pub data: Vec<u8>,
}

/// The chunk at the start of `b` fits in `b`.
pub open spec fn chunk_fits(b: Seq<u8>) -> bool {
    b.len() >= 12 && 12 + be_u32(b.subrange(0, 4)) <= b.len()
}

fn chunk_type(b: &[u8]) -> (r: ChunkType)
    requires
        b@.len() == 4,
    ensures
        r == chunk_type_of(b@),
{
    let (b0, b1, b2, b3) = (b[0], b[1], b[2], b[3]);
    proof {
        assert(b@ == seq![b0, b1, b2, b3]);
    }
    if b0 == 73 && b1 == 72 && b2 == 68 && b3 == 82 {
        ChunkType::IHDR
    } else if b0 == 80 && b1 == 76 && b2 == 84 && b3 == 69 {
        ChunkType::PLTE
    } else if b0 == 73 && b1 == 68 && b2 == 65 && b3 == 84 {
        ChunkType::IDAT
    } else if b0 == 73 && b1 == 69 && b2 == 78 && b3 == 68 {
        ChunkType::IEND
    } else {
        ChunkType::Other
    }
}

/// Reads the chunk at the start of `buf`; `None` when it runs past the end.
pub fn parse_png_chunks(buf: &[u8]) -> (r: Option<PngChunk>)
    ensures
        match r {
            None => !chunk_fits(buf@),
            Some(c) => {
                &&& chunk_fits(buf@)
                &&& c.chunk_type == chunk_type_of(buf@.subrange(4, 8))
                &&& c.data_len == be_u32(buf@.subrange(0, 4))
                &&& c.chunk_len == c.data_len + 12
                &&& c.data@ == buf@.subrange(8, 8 + c.data_len)
            },
        },
{
    if buf.len() < 12 {
        return None;
    }
    let len = bytes_to_int(&buf[0..4]);
    if len as u64 + 12 > buf.len() as u64 {
        return None;
    }
    let data_len = len as usize;
    let kind = chunk_type(&buf[4..8]);
    let mut data: Vec<u8> = Vec::new();
    let blen = buf.len();
    let mut i: usize = 0;
    while i < data_len
        invariant
            blen == buf@.len(),
            i <= data_len,
            data_len + 12 <= buf@.len(),
            data@ == buf@.subrange(8, 8 + i),
        decreases data_len - i,
    {
        data.push(buf[8 + i]);
        proof {
            assert(data@ =~= buf@.subrange(8, 8 + i + 1));
        }
        i += 1;
    }
    Some(PngChunk { chunk_type: kind, data_len, chunk_len: data_len + 12, data })
}

/// The header that the data of a header chunk describes.
pub open spec fn ihdr_of(data: Seq<u8>) -> Result<IHDRData, DecodeError> {
    if data.len() < 10 {
        Err(DecodeError::BadHeader)
    } else if data[9] != 2 && data[9] != 3 {
        Err(DecodeError::UnsupportedColorType)
    } else if data[8] != 8 {
        Err(DecodeError::UnsupportedBitDepth)
    } else {
        Ok(
            IHDRData {
                width: be_u32(data.subrange(0, 4)) as u32,
                height: be_u32(data.subrange(4, 8)) as u32,
                bit_depth: 8,
                color_type: if data[9] == 2 {
                    ColorType::TrueColorRGB
                } else {
                    ColorType::Indexed
                },
            },
        )
    }
}

/// Reads the data of a header chunk: width, height, bit depth (which must
/// be 8) and colour type (truecolour or indexed).
pub fn parse_ihdr(data: &Vec<u8>) -> (r: Result<IHDRData, DecodeError>)
    ensures
        r == ihdr_of(data@),
{
    if data.len() < 10 {
        return Err(DecodeError::BadHeader);
    }
    let color_type = match data[9] {
        2 => ColorType::TrueColorRGB,
        3 => ColorType::Indexed,
        _ => return Err(DecodeError::UnsupportedColorType),
    };
    if data[8] != 8 {
        return Err(DecodeError::UnsupportedBitDepth);
    }
    let width = bytes_to_int(&data.as_slice()[0..4]);
    let height = bytes_to_int(&data.as_slice()[4..8]);
    Ok(IHDRData { width, height, bit_depth: 8, color_type })
}

/// The palette that the data of a palette chunk lists.
pub open spec fn plte_of(data: Seq<u8>) -> Result<Seq<RGB>, DecodeError> {
    if data.len() % 3 != 0 {
        Err(DecodeError::BadPalette)
    } else {
        Ok(Seq::new((data.len() / 3) as nat, |i: int| RGB(data[3 * i], data[3 * i + 1], data[3 * i + 2])))
    }
}

/// Reads the data of a palette chunk as colour triples.
pub fn parse_plte(data: &Vec<u8>) -> (r: Result<Vec<RGB>, DecodeError>)
    ensures
        match plte_of(data@) {
            Ok(p) => r matches Ok(v) && v@ == p,
            Err(e) => r == Err::<Vec<RGB>, DecodeError>(e),
        },
{
    if data.len() % 3 != 0 {
        return Err(DecodeError::BadPalette);
    }
    let dlen = data.len();
    let n = dlen / 3;
    let mut result: Vec<RGB> = Vec::new();
    let mut i: usize = 0;
    while i < n
        invariant
            dlen == data@.len(),
            i <= n,
            n == data@.len() / 3,
            data@.len() % 3 == 0,
            result@.len() == i,
            forall|k: int|
                0 <= k < i ==> #[trigger] result@[k] == RGB(
                    data@[3 * k],
                    data@[3 * k + 1],
                    data@[3 * k + 2],
                ),
        decreases n - i,
    {
        assert(3 * i + 2 < data@.len()) by (nonlinear_arith)
            requires
                i < n,
                n == data@.len() / 3,
                data@.len() % 3 == 0,
        ;
        result.push(RGB(data[3 * i], data[3 * i + 1], data[3 * i + 2]));
        i += 1;
    }
    proof {
        let p = Seq::new(n as nat, |k: int| RGB(data@[3 * k], data@[3 * k + 1], data@[3 * k + 2]));
        assert(result@ =~= p);
    }
    Ok(result)
}

pub open spec fn abs(x: int) -> int {
    if x < 0 { -x } else { x }
}

/// The Paeth predictor of left `a`, above `b` and upper left `c`.
pub open spec fn paeth(a: int, b: int, c: int) -> int {
    let p = a + b - c;
    if abs(p - a) <= abs(p - b) && abs(p - a) <= abs(p - c) {
        a
    } else if abs(p - b) <= abs(p - c) {
        b
    } else {
        c
    }
}

/// The prediction of filter `kind` from the left, above and upper left
/// bytes.
pub open spec fn predictor(kind: int, a: int, b: int, c: int) -> int {
    if kind == 1 {
        a
    } else if kind == 2 {
        b
    } else if kind == 3 {
        (a + b) / 2
    } else if kind == 4 {
        paeth(a, b, c)
    } else {
        0
    }
}

/// The byte that filter `kind` turns `x` back into.
pub open spec fn unfilter_byte(kind: int, x: u8, a: u8, b: u8, c: u8) -> u8 {
    ((x + predictor(kind, a as int, b as int, c as int)) % 256) as u8
}

/// Filter 0: the byte as it stands.
pub fn none(current_pixel: u8, prev_pixel: u8, up_pixel: u8, diag_pixel: u8) -> (r: u8)
    ensures
        r == unfilter_byte(0, current_pixel, prev_pixel, up_pixel, diag_pixel),
{
    current_pixel
}

/// Filter 1: adds the byte to the left.
pub fn sub_filter(current_pixel: u8, prev_pixel: u8, up_pixel: u8, diag_pixel: u8) -> (r: u8)
    ensures
        r == unfilter_byte(1, current_pixel, prev_pixel, up_pixel, diag_pixel),
{
    ((current_pixel as u16 + prev_pixel as u16) % 256) as u8
}

/// Filter 2: adds the byte above.
pub fn up_filter(current_pixel: u8, prev_pixel: u8, up_pixel: u8, diag_pixel: u8) -> (r: u8)
    ensures
        r == unfilter_byte(2, current_pixel, prev_pixel, up_pixel, diag_pixel),
{
    ((current_pixel as u16 + up_pixel as u16) % 256) as u8
}

/// Filter 3: adds the mean of the bytes to the left and above, rounded
/// down.
pub fn avg_filter(current_pixel: u8, prev_pixel: u8, up_pixel: u8, diag_pixel: u8) -> (r: u8)
    ensures
        r == unfilter_byte(3, current_pixel, prev_pixel, up_pixel, diag_pixel),
{
    ((current_pixel as u16 + (up_pixel as u16 + prev_pixel as u16) / 2) % 256) as u8
}

/// Filter 4: adds the Paeth prediction.
pub fn paeth_filter(current_pixel: u8, prev_pixel: u8, up_pixel: u8, diag_pixel: u8) -> (r: u8)
    ensures
        r == unfilter_byte(4, current_pixel, prev_pixel, up_pixel, diag_pixel),
{
    let a = prev_pixel as i16;
    let b = up_pixel as i16;
    let c = diag_pixel as i16;
    let p = a + b - c;
    let pa = if p >= a { p - a } else { a - p };
    let pb = if p >= b { p - b } else { b - p };
    let pc = if p >= c { p - c } else { c - p };
    let prediction: u8 = if pa <= pb && pa <= pc {
        prev_pixel
    } else if pb <= pc {
        up_pixel
    } else {
        diag_pixel
    };
    ((current_pixel as u16 + prediction as u16) % 256) as u8
}

/// Undoes filter `i` on one byte; `None` for a filter that does not exist.
pub fn do_filter(i: u8, current: u8, prev: u8, up: u8, diag: u8) -> (r: Option<u8>)
    ensures
        r == if i <= 4 {
            Some(unfilter_byte(i as int, current, prev, up, diag))
        } else {
            None::<u8>
        },
{
    match i {
        0 => Some(none(current, prev, up, diag)),
        1 => Some(sub_filter(current, prev, up, diag)),
        2 => Some(up_filter(current, prev, up, diag)),
        3 => Some(avg_filter(current, prev, up, diag)),
        4 => Some(paeth_filter(current, prev, up, diag)),
        _ => None,
    }
}

/// The first `n` bytes of a row filtered with `kind`, restored: `raw` is
/// the row as stored, `above` the restored row above it, and `bpp` the
/// distance to the byte on the left.
pub open spec fn unfiltered(kind: int, raw: Seq<u8>, above: Seq<u8>, bpp: int, n: nat) -> Seq<u8>
    decreases n,
{
    if n == 0 {
        Seq::empty()
    } else {
        let prev = unfiltered(kind, raw, above, bpp, (n - 1) as nat);
        let i = n - 1;
        let a = if i >= bpp { prev[i - bpp] } else { 0u8 };
        let c = if i >= bpp { above[i - bpp] } else { 0u8 };
        prev.push(unfilter_byte(kind, raw[i], a, above[i], c))
    }
}

proof fn lemma_unfiltered_len(kind: int, raw: Seq<u8>, above: Seq<u8>, bpp: int, n: nat)
    ensures
        unfiltered(kind, raw, above, bpp, n).len() == n,
    decreases n,
{
    if n > 0 {
        lemma_unfiltered_len(kind, raw, above, bpp, (n - 1) as nat);
    }
}

/// Restores a row filtered with `filter_index`; `None` for a filter that
/// does not exist.
pub fn apply_filter(current_row: &[u8], prev_row: &[u8], filter_index: u8, bpp: usize) -> (r:
    Option<Vec<u8>>)
    requires
        current_row@.len() == prev_row@.len(),
        bpp >= 1,
    ensures
        r is Some <==> filter_index <= 4,
        r matches Some(v) ==> v@ == unfiltered(
            filter_index as int,
            current_row@,
            prev_row@,
            bpp as int,
            current_row@.len(),
        ),
{
    if filter_index > 4 {
        return None;
    }
    let n = current_row.len();
    let mut result: Vec<u8> = Vec::new();
    let mut i: usize = 0;
    while i < n
        invariant
            n == current_row@.len(),
            n == prev_row@.len(),
            filter_index <= 4,
            bpp >= 1,
            i <= n,
            result@ == unfiltered(filter_index as int, current_row@, prev_row@, bpp as int, i as nat),
        decreases n - i,
    {
        proof {
            lemma_unfiltered_len(filter_index as int, current_row@, prev_row@, bpp as int, i as nat);
        }
        let a = if i >= bpp { result[i - bpp] } else { 0 };
        let c = if i >= bpp { prev_row[i - bpp] } else { 0 };
        let b = do_filter(filter_index, current_row[i], a, prev_row[i], c).unwrap();
        result.push(b);
        i += 1;
    }
    Some(result)
}

/// The colour of pixel `i` of a restored row; `None` for a palette index
/// that the palette does not have.
pub open spec fn pixel_at(row: Seq<u8>, i: int, ct: ColorType, plte: Seq<RGB>) -> Option<RGB> {
    match ct {
        ColorType::TrueColorRGB => Some(RGB(row[3 * i], row[3 * i + 1], row[3 * i + 2])),
        ColorType::Indexed => if row[i] < plte.len() {
            Some(plte[row[i] as int])
        } else {
            None
        },
    }
}

/// Every one of the first `w` pixels of `row` has a colour.
pub open spec fn row_ok(row: Seq<u8>, w: int, ct: ColorType, plte: Seq<RGB>) -> bool {
    forall|i: int| 0 <= i < w ==> #[trigger] pixel_at(row, i, ct, plte) is Some
}

/// The colours of the first `w` pixels of `row`.
pub open spec fn row_colors(row: Seq<u8>, w: int, ct: ColorType, plte: Seq<RGB>) -> Seq<RGB> {
    Seq::new(w as nat, |i: int| pixel_at(row, i, ct, plte)->Some_0)
}

/// Reads pixel `line_pos` of a restored row.
fn get_current_pixel(current_row: &[u8], line_pos: usize, plte: &Vec<RGB>, color_type: ColorType) -> (r:
    Option<RGB>)
    requires
        (line_pos + 1) * channels(color_type) <= current_row@.len(),
    ensures
        r == pixel_at(current_row@, line_pos as int, color_type, plte@),
{
    match color_type {
        ColorType::TrueColorRGB => {
            let rlen = current_row.len();
            assert(3 * line_pos + 3 <= rlen) by (nonlinear_arith)
                requires
                    (line_pos + 1) * 3 <= current_row@.len(),
                    rlen == current_row@.len(),
            ;
            let k = 3 * line_pos;
            Some(RGB(current_row[k], current_row[k + 1], current_row[k + 2]))
        },
        ColorType::Indexed => {
            let index = current_row[line_pos] as usize;
            if index < plte.len() {
                Some(plte[index])
            } else {
                None
            }
        },
    }
}

fn row_to_pixels(row: &[u8], width: usize, plte: &Vec<RGB>, color_type: ColorType) -> (r: Option<
    Vec<RGB>,
>)
    requires
        width * channels(color_type) <= row@.len(),
    ensures
        r is Some <==> row_ok(row@, width as int, color_type, plte@),
        r matches Some(v) ==> v@ == row_colors(row@, width as int, color_type, plte@),
{
    let mut result: Vec<RGB> = Vec::new();
    let mut i: usize = 0;
    while i < width
        invariant
            i <= width,
            width * channels(color_type) <= row@.len(),
            result@.len() == i,
            forall|k: int| 0 <= k < i ==> #[trigger] pixel_at(row@, k, color_type, plte@) is Some,
            forall|k: int|
                0 <= k < i ==> #[trigger] result@[k] == pixel_at(row@, k, color_type, plte@)->Some_0,
        decreases width - i,
    {
        assert((i + 1) * channels(color_type) <= row@.len()) by (nonlinear_arith)
            requires
                i < width,
                width * channels(color_type) <= row@.len(),
                channels(color_type) >= 1,
        ;
        match get_current_pixel(row, i, plte, color_type) {
            Some(p) => result.push(p),
            None => return None,
        }
        i += 1;
    }
    proof {
        assert(result@ =~= row_colors(row@, width as int, color_type, plte@));
    }
    Some(result)
}

/// The first `n` restored rows of decompressed image data whose rows hold
/// `bw` bytes after their filter byte; `None` if one names an unknown
/// filter.
pub open spec fn image_rows(data: Seq<u8>, bw: int, bpp: int, n: nat) -> Option<Seq<Seq<u8>>>
    decreases n,
{
    if n == 0 {
        Some(Seq::empty())
    } else {
        match image_rows(data, bw, bpp, (n - 1) as nat) {
            None => None,
            Some(rows) => {
                let start = (n - 1) * (bw + 1);
                let kind = data[start];
                if kind > 4 {
                    None
                } else {
                    let above = if n == 1 {
                        Seq::new(bw as nat, |i: int| 0u8)
                    } else {
                        rows.last()
                    };
                    Some(
                        rows.push(
                            unfiltered(
                                kind as int,
                                data.subrange(start + 1, start + 1 + bw),
                                above,
                                bpp,
                                bw as nat,
                            ),
                        ),
                    )
                }
            },
        }
    }
}

/// The image that decompressed data describes under header `hdr` and
/// palette `plte`, row by row.
pub open spec fn decoded_image(data: Seq<u8>, hdr: IHDRData, plte: Seq<RGB>) -> Result<
    Seq<Seq<RGB>>,
    DecodeError,
> {
    let w = hdr.width as int;
    let h = hdr.height as int;
    let bpp = channels(hdr.color_type);
    let bw = w * bpp;
    if w == 0 || h == 0 || w > i32::MAX || h > i32::MAX {
        Err(DecodeError::BadDimensions)
    } else if data.len() < h * (bw + 1) {
        Err(DecodeError::TruncatedData)
    } else {
        match image_rows(data, bw, bpp, h as nat) {
            None => Err(DecodeError::UnknownFilter),
            Some(rows) => if forall|y: int| 0 <= y < h ==> row_ok(#[trigger] rows[y], w, hdr.color_type, plte) {
                Ok(Seq::new(h as nat, |y: int| row_colors(rows[y], w, hdr.color_type, plte)))
            } else {
                Err(DecodeError::BadPaletteIndex)
            },
        }
    }
}

/// The rows of `img`, each as a sequence.
pub open spec fn rows_of<T>(img: Seq<Vec<T>>) -> Seq<Seq<T>> {
    img.map_values(|r: Vec<T>| r@)
}

proof fn lemma_image_rows_len(data: Seq<u8>, bw: int, bpp: int, n: nat)
    requires
        bw >= 0,
    ensures
        image_rows(data, bw, bpp, n) matches Some(rows) ==> rows.len() == n && forall|y: int|
            0 <= y < n ==> (#[trigger] rows[y]).len() == bw,
    decreases n,
{
    if n > 0 {
        lemma_image_rows_len(data, bw, bpp, (n - 1) as nat);
        if let Some(rows) = image_rows(data, bw, bpp, (n - 1) as nat) {
            let start = (n - 1) * (bw + 1);
            let kind = data[start];
            let above = if n == 1 {
                Seq::new(bw as nat, |i: int| 0u8)
            } else {
                rows.last()
            };
            lemma_unfiltered_len(
                kind as int,
                data.subrange(start + 1, start + 1 + bw),
                above,
                bpp,
                bw as nat,
            );
        }
    }
}

/// Restores the rows of decompressed image data and turns them into
/// colours, as `decoded_image` describes.
pub fn defilter_image(inflated: &Vec<u8>, meta_data: &IHDRData, plte: &Vec<RGB>) -> (r: Result<
    Vec<Vec<RGB>>,
    DecodeError,
>)
    ensures
        match decoded_image(inflated@, *meta_data, plte@) {
            Ok(img) => r matches Ok(v) && rows_of(v@) == img,
            Err(e) => r == Err::<Vec<Vec<RGB>>, DecodeError>(e),
        },
        r matches Ok(v) ==> well_formed(v@),
{
    let ghost data = inflated@;
    let ct = meta_data.color_type;
    let bpp = ct.num_channels();
    let w32 = meta_data.width;
    let h32 = meta_data.height;
    if w32 == 0 || h32 == 0 || w32 > i32::MAX as u32 || h32 > i32::MAX as u32 {
        return Err(DecodeError::BadDimensions);
    }
    let w = w32 as u64;
    let h = h32 as u64;
    let bw64 = w * bpp as u64;
    assert(h * (bw64 + 1) <= 0x7fff_ffff * (3 * 0x7fff_ffff + 1)) by (nonlinear_arith)
        requires
            h <= 0x7fff_ffff,
            bw64 <= 3 * 0x7fff_ffff,
    ;
    let total = h * (bw64 + 1);
    let ilen = inflated.len();
    if (ilen as u64) < total {
        return Err(DecodeError::TruncatedData);
    }
    assert(total >= bw64 + 1) by (nonlinear_arith)
        requires
            total == h * (bw64 + 1),
            h >= 1,
    ;
    let bw = bw64 as usize;
    let stride = bw + 1;
    let height = h as usize;
    let width = w as usize;
    let mut rows: Vec<Vec<u8>> = Vec::new();
    let mut prev: Vec<u8> = Vec::new();
    let mut k: usize = 0;
    while k < bw
        invariant
            k <= bw,
            prev@ == Seq::new(k as nat, |i: int| 0u8),
        decreases bw - k,
    {
        prev.push(0);
        proof {
            assert(prev@ =~= Seq::new((k + 1) as nat, |i: int| 0u8));
        }
        k += 1;
    }
    proof {
        assert(bw == width * channels(ct));
        assert(height * stride == total);
    }
    let mut y: usize = 0;
    let mut offset: usize = 0;
    while y < height
        invariant
            data == inflated@,
            ilen == data.len(),
            height == meta_data.height,
            width == meta_data.width,
            0 < width <= i32::MAX,
            0 < height <= i32::MAX,
            ct == meta_data.color_type,
            bw == width * channels(ct),
            bpp == channels(ct),
            stride == bw + 1,
            height * stride <= data.len(),
            y <= height,
            offset == y * stride,
            image_rows(data, bw as int, bpp as int, y as nat) == Some(rows_of(rows@)),
            prev@.len() == bw,
            prev@ == if y == 0 {
                Seq::new(bw as nat, |i: int| 0u8)
            } else {
                rows_of(rows@).last()
            },
        decreases height - y,
    {
        assert(offset + stride <= height * stride) by (nonlinear_arith)
            requires
                offset == y * stride,
                y < height,
        ;
        let kind = inflated[offset];
        let raw = &inflated.as_slice()[offset + 1..offset + 1 + bw];
        let restored = match apply_filter(raw, prev.as_slice(), kind, bpp) {
            Some(v) => v,
            None => {
                proof {
                    assert(image_rows(data, bw as int, bpp as int, (y + 1) as nat) is None);
                    lemma_image_rows_none_stays(data, bw as int, bpp as int, (y + 1) as nat, height as nat);
                }
                return Err(DecodeError::UnknownFilter);
            },
        };
        proof {
            lemma_unfiltered_len(kind as int, raw@, prev@, bpp as int, bw as nat);
            assert(offset == (y + 1 - 1) * (bw + 1));
        }
        let ghost before = rows@;
        rows.push(restored.clone());
        proof {
            assert(rows_of(rows@) =~= rows_of(before).push(restored@));
            assert(offset + stride == (y + 1) * stride) by (nonlinear_arith)
                requires
                    offset == y * stride,
            ;
        }
        prev = restored;
        y += 1;
        offset = offset + stride;
    }
    proof {
        lemma_image_rows_len(data, bw as int, bpp as int, height as nat);
    }
    let ghost rs = rows_of(rows@);
    let mut image: Vec<Vec<RGB>> = Vec::new();
    let mut j: usize = 0;
    while j < height
        invariant
            j <= height,
            data == inflated@,
            height == meta_data.height,
            width == meta_data.width,
            0 < width <= i32::MAX,
            0 < height <= i32::MAX,
            ct == meta_data.color_type,
            bpp == channels(ct),
            !(data.len() < height * (bw + 1)),
            image_rows(data, bw as int, bpp as int, height as nat) == Some(rs),
            rows@.len() == height,
            rs == rows_of(rows@),
            forall|q: int| 0 <= q < height ==> (#[trigger] rs[q]).len() == bw,
            bw == width * channels(ct),
            image@.len() == j,
            forall|q: int| 0 <= q < j ==> row_ok(#[trigger] rs[q], width as int, ct, plte@),
            forall|q: int|
                0 <= q < j ==> (#[trigger] image@[q])@ == row_colors(rs[q], width as int, ct, plte@),
        decreases height - j,
    {
        assert(rows@[j as int]@ == rs[j as int]);
        match row_to_pixels(rows[j].as_slice(), width, plte, ct) {
            Some(v) => image.push(v),
            None => {
                proof {
                    assert(!row_ok(rs[j as int], width as int, ct, plte@));
                }
                return Err(DecodeError::BadPaletteIndex);
            },
        }
        j += 1;
    }
    proof {
        let expected = Seq::new(height as nat, |q: int| row_colors(rs[q], width as int, ct, plte@));
        assert(rows_of(image@) =~= expected);
        assert forall|q: int| 0 <= q < image@.len() implies (#[trigger] image@[q])@.len() == image@[0]@.len() by {
            assert(image@[q]@.len() == width);
            assert(image@[0]@.len() == width);
        }
    }
    Ok(image)
}

proof fn lemma_image_rows_none_stays(data: Seq<u8>, bw: int, bpp: int, n: nat, m: nat)
    requires
        image_rows(data, bw, bpp, n) is None,
        n <= m,
    ensures
        image_rows(data, bw, bpp, m) is None,
    decreases m - n,
{
    if n < m {
        lemma_image_rows_none_stays(data, bw, bpp, n, (m - 1) as nat);
    }
}

/// What inflating a zlib stream gives; `None` for a stream that is not
/// valid.
pub uninterp spec fn zlib_inflated(data: Seq<u8>) -> Option<Seq<u8>>;

/// Relies on `inflate::inflate_bytes_zlib`: it decompresses a zlib stream
/// (header, deflate data, checksum) and fails on an invalid one; the result
/// depends on the bytes alone.
#[verifier::external_body]
fn inflate_zlib(data: &[u8]) -> (r: Option<Vec<u8>>)
    ensures
        match zlib_inflated(data@) {
            Some(d) => r matches Some(v) && v@ == d,
            None => r is None,
        },
{
    inflate::inflate_bytes_zlib(data).ok()
}

/// Inflates the concatenated image data and decodes it under the header
/// and palette.
pub fn parse_data(image_data: &Vec<u8>, meta_data: &IHDRData, plte: &Vec<RGB>) -> (r: Result<
    Vec<Vec<RGB>>,
    DecodeError,
>)
    ensures
        match zlib_inflated(image_data@) {
            None => r == Err::<Vec<Vec<RGB>>, DecodeError>(DecodeError::Compression),
            Some(d) => match decoded_image(d, *meta_data, plte@) {
                Ok(img) => r matches Ok(v) && rows_of(v@) == img,
                Err(e) => r == Err::<Vec<Vec<RGB>>, DecodeError>(e),
            },
        },
        r matches Ok(v) ==> well_formed(v@),
{
    match inflate_zlib(image_data.as_slice()) {
        None => Err(DecodeError::Compression),
        Some(inflated) => defilter_image(&inflated, meta_data, plte),
    }
}

/// The eight bytes that open every file of the format.
pub open spec fn png_signature() -> Seq<u8> {
    seq![137u8, 80u8, 78u8, 71u8, 13u8, 10u8, 26u8, 10u8]
}

/// Whether `first_bytes` starts with the signature.
pub fn check_valid_png(first_bytes: &[u8]) -> (r: bool)
    ensures
        r == (first_bytes@.len() >= 8 && first_bytes@.subrange(0, 8) == png_signature()),
{
    if first_bytes.len() < 8 {
        return false;
    }
    let expected: [u8; 8] = [137, 80, 78, 71, 13, 10, 26, 10];
    let mut i: usize = 0;
    while i < 8
        invariant
            i <= 8,
            first_bytes@.len() >= 8,
            expected@ == png_signature(),
            forall|k: int| 0 <= k < i ==> first_bytes@[k] == png_signature()[k],
        decreases 8 - i,
    {
        if first_bytes[i] != expected[i] {
            proof {
                assert(first_bytes@.subrange(0, 8)[i as int] != png_signature()[i as int]);
            }
            return false;
        }
        i += 1;
    }
    proof {
        assert(first_bytes@.subrange(0, 8) =~= png_signature());
    }
    true
}

/// The palette seen so far, empty if none.
pub open spec fn palette_or_empty(p: Option<Seq<RGB>>) -> Seq<RGB> {
    match p {
        Some(q) => q,
        None => Seq::empty(),
    }
}

/// The walk over the chunks from byte `pos` on, gathering the header, the
/// palette and the compressed image data, up to the end chunk.
pub open spec fn walk(
    b: Seq<u8>,
    pos: int,
    hdr: Option<IHDRData>,
    plte: Option<Seq<RGB>>,
    idat: Seq<u8>,
) -> Result<(IHDRData, Seq<RGB>, Seq<u8>), DecodeError>
    decreases b.len() - pos,
{
    if pos < 0 || pos >= b.len() {
        Err(DecodeError::MissingEnd)
    } else {
        let rest = b.subrange(pos, b.len() as int);
        if !chunk_fits(rest) {
            Err(DecodeError::MalformedChunk)
        } else {
            let len = be_u32(rest.subrange(0, 4));
            let data = rest.subrange(8, 8 + len);
            let next = pos + len + 12;
            match chunk_type_of(rest.subrange(4, 8)) {
                ChunkType::IHDR => match ihdr_of(data) {
                    Ok(h) => walk(b, next, Some(h), plte, idat),
                    Err(e) => Err(e),
                },
                ChunkType::PLTE => match plte_of(data) {
                    Ok(p) => walk(b, next, hdr, Some(p), idat),
                    Err(e) => Err(e),
                },
                ChunkType::IDAT => match hdr {
                    None => Err(DecodeError::MissingHeader),
                    Some(h) => if h.color_type == ColorType::Indexed && plte is None {
                        Err(DecodeError::MissingPalette)
                    } else {
                        walk(b, next, hdr, plte, idat + data)
                    },
                },
                ChunkType::IEND => match hdr {
                    None => Err(DecodeError::MissingHeader),
                    Some(h) => Ok((h, palette_or_empty(plte), idat)),
                },
                ChunkType::Other => walk(b, next, hdr, plte, idat),
            }
        }
    }
}

/// The image that the bytes of a whole file describe.
pub open spec fn decoded_png(b: Seq<u8>) -> Result<Seq<Seq<RGB>>, DecodeError> {
    if b.len() < 8 || b.subrange(0, 8) != png_signature() {
        Err(DecodeError::NotPng)
    } else {
        match walk(b, 8, None, None, Seq::empty()) {
            Err(e) => Err(e),
            Ok(found) => match zlib_inflated(found.2) {
                None => Err(DecodeError::Compression),
                Some(d) => decoded_image(d, found.0, found.1),
            },
        }
    }
}

/// Decodes the bytes of a whole file into rows of colours.
pub fn decode_png(bytes: &Vec<u8>) -> (r: Result<Vec<Vec<RGB>>, DecodeError>)
    ensures
        match decoded_png(bytes@) {
            Ok(img) => r matches Ok(v) && rows_of(v@) == img,
            Err(e) => r == Err::<Vec<Vec<RGB>>, DecodeError>(e),
        },
        r matches Ok(v) ==> well_formed(v@),
{
    let ghost b = bytes@;
    if !check_valid_png(bytes.as_slice()) {
        return Err(DecodeError::NotPng);
    }
    let n = bytes.len();
    let mut pos: usize = 8;
    let mut meta_data: Option<IHDRData> = None;
    let mut plte: Option<Vec<RGB>> = None;
    let mut data: Vec<u8> = Vec::new();
    proof {
        assert(data@ =~= Seq::<u8>::empty());
    }
    loop
        invariant
            b == bytes@,
            n == b.len(),
            b.len() >= 8 && b.subrange(0, 8) == png_signature(),
            pos <= n,
            walk(b, 8, None, None, Seq::empty()) == walk(
                b,
                pos as int,
                meta_data,
                match plte {
                    Some(p) => Some(p@),
                    None => None::<Seq<RGB>>,
                },
                data@,
            ),
        decreases n - pos,
    {
        if pos >= n {
            return Err(DecodeError::MissingEnd);
        }
        let chunk = match parse_png_chunks(&bytes.as_slice()[pos..n]) {
            Some(c) => c,
            None => {
                return Err(DecodeError::MalformedChunk);
            },
        };
        let ghost rest = b.subrange(pos as int, n as int);
        match chunk.chunk_type {
            ChunkType::IHDR => {
                match parse_ihdr(&chunk.data) {
                    Ok(h) => {
                        meta_data = Some(h);
                    },
                    Err(e) => {
                        return Err(e);
                    },
                }
            },
            ChunkType::PLTE => {
                match parse_plte(&chunk.data) {
                    Ok(p) => {
                        plte = Some(p);
                    },
                    Err(e) => {
                        return Err(e);
                    },
                }
            },
            ChunkType::IDAT => {
                match meta_data {
                    None => {
                        return Err(DecodeError::MissingHeader);
                    },
                    Some(h) => {
                        if h.color_type == ColorType::Indexed && plte.is_none() {
                            return Err(DecodeError::MissingPalette);
                        }
                    },
                }
                let ghost before = data@;
                let mut k: usize = 0;
                while k < chunk.data_len
                    invariant
                        k <= chunk.data_len,
                        chunk.data@.len() == chunk.data_len,
                        data@ == before + chunk.data@.subrange(0, k as int),
                    decreases chunk.data_len - k,
                {
                    data.push(chunk.data[k]);
                    proof {
                        assert(data@ =~= before + chunk.data@.subrange(0, k + 1));
                    }
                    k += 1;
                }
                proof {
                    assert(chunk.data@.subrange(0, k as int) =~= chunk.data@);
                }
            },
            ChunkType::IEND => {
                match meta_data {
                    None => {
                        return Err(DecodeError::MissingHeader);
                    },
                    Some(h) => {
                        let palette = match plte {
                            Some(p) => p,
                            None => Vec::new(),
                        };
                        proof {
                            assert(palette@ == palette_or_empty(
                                match plte {
                                    Some(p) => Some(p@),
                                    None => None::<Seq<RGB>>,
                                },
                            ));
                        }
                        return parse_data(&data, &h, &palette);
                    },
                }
            },
            ChunkType::Other => {},
        }
        pos = pos + chunk.chunk_len;
    }
}

/// The length of the run of equal colours that starts at index `i` of `s`.
pub open spec fn run_from(s: Seq<RGB>, i: int) -> int
    decreases s.len() - i,
{
    if 0 <= i && i + 1 < s.len() && s[i + 1] == s[i] {
        1 + run_from(s, i + 1)
    } else {
        1
    }
}

/// A maximal run of equal colours starts at index `i` of `s`.
pub open spec fn run_starts(s: Seq<RGB>, i: int) -> bool {
    0 <= i < s.len() && (i == 0 || s[i - 1] != s[i])
}

/// Every maximal run of `s` is at least `m` long.
pub open spec fn runs_at_least(s: Seq<RGB>, m: int) -> bool {
    forall|i: int| #[trigger] run_starts(s, i) ==> run_from(s, i) >= m
}

/// Some maximal run of `s` is exactly `m` long.
pub open spec fn has_run(s: Seq<RGB>, m: int) -> bool {
    exists|i: int| #[trigger] run_starts(s, i) && run_from(s, i) == m
}

proof fn lemma_run_length(s: Seq<RGB>, start: int, x: int, i: int)
    requires
        0 <= start <= i < x <= s.len(),
        forall|k: int| start <= k < x ==> #[trigger] s[k] == s[start],
        x == s.len() || s[x] != s[start],
    ensures
        run_from(s, i) == x - i,
    decreases x - i,
{
    if i + 1 < x {
        lemma_run_length(s, start, x, i + 1);
        assert(s[i + 1] == s[i]);
    }
}

/// The length of the shortest maximal run of equal colours in `line`.
fn line_min_run(line: &Vec<RGB>) -> (r: usize)
    requires
        line@.len() > 0,
    ensures
        runs_at_least(line@, r as int),
        has_run(line@, r as int),
        1 <= r <= line@.len(),
{
    let ghost s = line@;
    let n = line.len();
    let mut best = n;
    let ghost mut found = false;
    let mut start: usize = 0;
    let mut x: usize = 1;
    while x < n
        invariant
            s == line@,
            n == s.len(),
            0 <= start < x <= n,
            forall|k: int| start <= k < x ==> #[trigger] s[k] == s[start as int],
            run_starts(s, start as int),
            forall|i: int| 0 <= i < start && #[trigger] run_starts(s, i) ==> run_from(s, i) >= best,
            found ==> has_run(s, best as int),
            !found ==> best == n,
            1 <= best <= n,
        decreases n - x,
    {
        if line[x] != line[start] {
            proof {
                lemma_run_length(s, start as int, x as int, start as int);
                assert forall|i: int| 0 <= i < x && #[trigger] run_starts(s, i) implies run_from(s, i)
                    >= (if x - start < best { x - start } else { best as int }) by {
                    if i > start {
                        assert(s[i - 1] == s[start as int] && s[i] == s[start as int]);
                    }
                }
            }
            if x - start < best {
                best = x - start;
                proof {
                    found = true;
                    assert(run_starts(s, start as int) && run_from(s, start as int) == best);
                }
            }
            start = x;
        }
        x += 1;
    }
    proof {
        lemma_run_length(s, start as int, n as int, start as int);
    }
    let last = n - start;
    if last < best {
        best = last;
        proof {
            assert(run_starts(s, start as int) && run_from(s, start as int) == best);
        }
    }
    proof {
        assert forall|i: int| #[trigger] run_starts(s, i) implies run_from(s, i) >= best by {
            if i > start {
                assert(s[i - 1] == s[start as int] && s[i] == s[start as int]);
            }
            if i >= start && i <= start {
                assert(run_from(s, start as int) == last);
            }
        }
        if !found {
            assert(best == last) by {
                assert(run_from(s, start as int) == last);
            }
            assert(run_starts(s, start as int) && run_from(s, start as int) == best);
        }
    }
    best
}

/// Column `x` of an image, top to bottom.
pub open spec fn column(img: Seq<Vec<RGB>>, x: int) -> Seq<RGB> {
    Seq::new(img.len() as nat, |y: int| img[y]@[x])
}

/// `m` is the length of the shortest maximal run of equal colours over all
/// rows and columns of `img`.
pub open spec fn is_min_run(img: Seq<Vec<RGB>>, m: int) -> bool {
    &&& forall|y: int| 0 <= y < img.len() ==> runs_at_least(#[trigger] img[y]@, m)
    &&& forall|x: int| 0 <= x < img[0]@.len() ==> runs_at_least(#[trigger] column(img, x), m)
    &&& (exists|y: int| 0 <= y < img.len() && has_run(#[trigger] img[y]@, m)) || (exists|x: int|
        0 <= x < img[0]@.len() && has_run(#[trigger] column(img, x), m))
}

/// The length of the shortest maximal run of equal colours.
pub open spec fn min_run(img: Seq<Vec<RGB>>) -> int {
    choose|m: int| is_min_run(img, m)
}

/// The shortest run is unique.
pub proof fn lemma_min_run_unique(img: Seq<Vec<RGB>>, m1: int, m2: int)
    requires
        is_min_run(img, m1),
        is_min_run(img, m2),
    ensures
        m1 == m2,
{
    assert(m1 <= m2) by {
        if exists|y: int| 0 <= y < img.len() && has_run(#[trigger] img[y]@, m2) {
            let y = choose|y: int| 0 <= y < img.len() && has_run(#[trigger] img[y]@, m2);
            assert(runs_at_least(img[y]@, m1));
        } else {
            let x = choose|x: int| 0 <= x < img[0]@.len() && has_run(#[trigger] column(img, x), m2);
            assert(runs_at_least(column(img, x), m1));
        }
    }
    assert(m2 <= m1) by {
        if exists|y: int| 0 <= y < img.len() && has_run(#[trigger] img[y]@, m1) {
            let y = choose|y: int| 0 <= y < img.len() && has_run(#[trigger] img[y]@, m1);
            assert(runs_at_least(img[y]@, m2));
        } else {
            let x = choose|x: int| 0 <= x < img[0]@.len() && has_run(#[trigger] column(img, x), m1);
            assert(runs_at_least(column(img, x), m2));
        }
    }
}

/// The shortest maximal run of equal colours along the rows and columns.
pub fn min_run_length(rgb_img: &Vec<Vec<RGB>>) -> (r: i32)
    requires
        well_formed(rgb_img@),
    ensures
        is_min_run(rgb_img@, r as int),
        r >= 1,
{
    let ghost img = rgb_img@;
    let height = rgb_img.len();
    let width = rgb_img[0].len();
    let mut best = line_min_run(&rgb_img[0]);
    assert(img[0]@.len() == width);
    let ghost mut in_row = true;
    let ghost mut wit: int = 0;
    let mut y: usize = 1;
    while y < height
        invariant
            img == rgb_img@,
            well_formed(img),
            height == img.len(),
            width == img[0]@.len(),
            1 <= y <= height,
            1 <= best <= width,
            forall|k: int| 0 <= k < y ==> runs_at_least(#[trigger] img[k]@, best as int),
            in_row && 0 <= wit < y && has_run(img[wit]@, best as int),
        decreases height - y,
    {
        let m = line_min_run(&rgb_img[y]);
        assert(img[y as int]@.len() == width);
        if m < best {
            best = m;
            proof {
                wit = y as int;
            }
        }
        y += 1;
    }
    let mut x: usize = 0;
    while x < width
        invariant
            img == rgb_img@,
            well_formed(img),
            height == img.len(),
            width == img[0]@.len(),
            x <= width,
            1 <= best <= width || 1 <= best <= height,
            best <= usize::MAX,
            forall|k: int| 0 <= k < height ==> runs_at_least(#[trigger] img[k]@, best as int),
            forall|k: int| 0 <= k < x ==> runs_at_least(#[trigger] column(img, k), best as int),
            (in_row && 0 <= wit < height && has_run(img[wit]@, best as int)) || (!in_row && 0 <= wit
                < x && has_run(column(img, wit), best as int)),
        decreases width - x,
    {
        let mut col: Vec<RGB> = Vec::new();
        let mut k: usize = 0;
        while k < height
            invariant
                img == rgb_img@,
                well_formed(img),
                height == img.len(),
                width == img[0]@.len(),
                x < width,
                k <= height,
                col@ == column(img, x as int).subrange(0, k as int),
            decreases height - k,
        {
            assert(img[k as int]@.len() == width);
            col.push(rgb_img[k][x]);
            proof {
                assert(col@ =~= column(img, x as int).subrange(0, k + 1));
            }
            k += 1;
        }
        proof {
            assert(col@ =~= column(img, x as int));
        }
        let m = line_min_run(&col);
        if m < best {
            best = m;
            proof {
                in_row = false;
                wit = x as int;
            }
        }
        x += 1;
    }
    proof {
        assert(best <= i32::MAX);
    }
    best as i32
}

/// The codel size to use when none is given: the shortest run of equal
/// colours if both sides of the image are multiples of it, else 1.
pub fn infer_codel_size(rgb_img: &Vec<Vec<RGB>>) -> (r: i32)
    requires
        well_formed(rgb_img@),
    ensures
        r == if width(rgb_img@) % min_run(rgb_img@) == 0 && height(rgb_img@) % min_run(rgb_img@)
            == 0 {
            min_run(rgb_img@)
        } else {
            1
        },
        r >= 1,
{
    let m = min_run_length(rgb_img);
    proof {
        lemma_min_run_unique(rgb_img@, m as int, min_run(rgb_img@));
    }
    let width = rgb_img[0].len() as i32;
    let height = rgb_img.len() as i32;
    if width % m == 0 && height % m == 0 {
        m
    } else {
        1
    }
}

} // verus!
