//! Decoding of window-property replies: text, lists of 32-bit values, and
//! the icon bitmaps that a window may carry.
use vstd::prelude::*;
use crate::model::RawIcon;
use crate::text::utf8_lossy;
use crate::text::utf8_lossy_of;

verus! {

/// Why a property has no value: the reply's unit size was not the one
/// expected, or the property could not be read at all.
#[derive(Debug, Clone, Copy, PartialEq, Eq, Structural)]
pub enum PropertyError {
    Format(u8),
    Unavailable,
}

/// The part of a text property that is read, in 32-bit units: 4096 bytes.
pub const TEXT_PROPERTY_UNITS: u32 = 1024;

/// The part of a list property that is read, in 32-bit units.
pub const LIST_PROPERTY_UNITS: u32 = 4096;

/// Decodes a text-property reply: its unit size must be 8 bits; the bytes are
/// then read as UTF-8, invalid sequences replaced.
pub fn decode_text_property(format: u8, value: &[u8]) -> (r: Result<String, PropertyError>)
    ensures
        format != 8 ==> r == Err::<String, PropertyError>(PropertyError::Format(format)),
        format == 8 ==> r is Ok && r->Ok_0@ == utf8_lossy_of(value@),
{
    if format != 8 {
        return Err(PropertyError::Format(format));
    }
    Ok(utf8_lossy(value))
}

/// Decodes a reply that holds a list of 32-bit values (window ids). `values`
/// are the reply's 32-bit units in wire order, and `value_len` the number of
/// units that the reply declares. A reply with another unit size is an error,
/// unless it is empty: an absent property is an empty list.
pub fn decode_id_list(format: u8, value_len: u32, values: Vec<u32>) -> (r: Result<
    Vec<u32>,
    PropertyError,
>)
    ensures
        format == 32 ==> r is Ok && r->Ok_0@ == values@,
        format != 32 && value_len == 0 ==> r is Ok && r->Ok_0@.len() == 0,
        format != 32 && value_len != 0 ==> r == Err::<Vec<u32>, PropertyError>(
            PropertyError::Format(format),
        ),
{
    if format != 32 {
        if value_len == 0 {
            return Ok(Vec::new());
        }
        return Err(PropertyError::Format(format));
    }
    Ok(values)
}

/// The four bytes red, green, blue, alpha of a pixel packed as `0xAARRGGBB`.
pub open spec fn rgba_of_pixel(p: u32) -> Seq<u8> {
    seq![
        ((p / 0x10000) % 0x100) as u8,
        ((p / 0x100) % 0x100) as u8,
        (p % 0x100) as u8,
        (p / 0x1000000) as u8,
    ]
}

/// The bytes of a run of packed pixels, four per pixel.
pub open spec fn rgba_of(pixels: Seq<u32>) -> Seq<u8>
    decreases pixels.len(),
{
    if pixels.len() == 0 {
        seq![]
    } else {
        rgba_of(pixels.drop_last()) + rgba_of_pixel(pixels.last())
    }
}

/// The area of the best block found so far (none: 0).
pub open spec fn best_area(best: Option<(int, int, int)>) -> int {
    match best {
        Some(b) => b.1 * b.2,
        None => 0,
    }
}

/// Scans the blocks `[width, height, pixels...]` of an icon property from
/// `cursor` on, carrying the best block so far as (start, width, height). A
/// block replaces it only with a strictly larger area; the scan stops at the
/// first block that the data cannot hold.
pub open spec fn scan_blocks(data: Seq<u32>, cursor: int, best: Option<(int, int, int)>) -> Option<
    (int, int, int),
>
    decreases data.len() - cursor,
{
    if cursor < 0 || cursor + 2 > data.len() {
        best
    } else {
        let w = data[cursor] as int;
        let h = data[cursor + 1] as int;
        if cursor + 2 + w * h > data.len() {
            best
        } else {
            let next = if w * h > best_area(best) {
                Some((cursor, w, h))
            } else {
                best
            };
            scan_blocks(data, cursor + 2 + w * h, next)
        }
    }
}

/// The largest block of an icon property, the earliest among equals.
pub open spec fn best_block(data: Seq<u32>) -> Option<(int, int, int)> {
    scan_blocks(data, 0, None)
}

/// Whether a property reply yields an icon at all.
pub open spec fn has_embedded_icon(format: u8, value_len: u32, data: Seq<u32>) -> bool {
    format == 32 && value_len != 0 && best_block(data) is Some
}

/// The icon that a property reply yields, where it yields one: the best
/// block's size and its pixels as RGBA bytes.
pub open spec fn embedded_icon_matches(data: Seq<u32>, icon: RawIcon) -> bool {
    let b = best_block(data)->0;
    &&& icon.width == b.1
    &&& icon.height == b.2
    &&& icon.data@ == rgba_of(data.subrange(b.0 + 2, b.0 + 2 + b.1 * b.2))
}

/// The RGBA bytes of `data[start..start + count]`.
fn pixels_to_rgba(data: &Vec<u32>, start: usize, count: usize) -> (r: Vec<u8>)
    requires
        start + count <= data@.len(),
    ensures
        r@ == rgba_of(data@.subrange(start as int, start + count)),
{
    let n = data.len();
    let mut out: Vec<u8> = Vec::new();
    let mut k: usize = 0;
    while k < count
        invariant
            n == data@.len(),
            start + count <= data@.len(),
            k <= count,
            out@ == rgba_of(data@.subrange(start as int, start + k)),
        decreases count - k,
    {
        let p = data[start + k];
        let ghost prev = data@.subrange(start as int, start + k);
        assert(data@.subrange(start as int, start + k + 1).drop_last() =~= prev);
        out.push(((p / 0x10000) % 0x100) as u8);
        out.push(((p / 0x100) % 0x100) as u8);
        out.push((p % 0x100) as u8);
        out.push((p / 0x1000000) as u8);
        assert(out@ =~= rgba_of(prev) + rgba_of_pixel(p));
        k = k + 1;
    }
    out
}

/// Extracts the icon bitmap from a window's icon property: `format` is the
/// reply's unit size, `value_len` the number of units it declares and `data`
/// its 32-bit units. The property is a run of blocks `[width, height,
/// width * height pixels]`; the block with the strictly largest area wins,
/// the earliest among equals, and its `0xAARRGGBB` pixels become RGBA bytes.
/// Parsing stops, without failing, at a block that the data cannot hold.
/// No icon for a reply of another unit size, an empty one, or one without a
/// block of positive area.
pub fn extract_embedded_icon(format: u8, value_len: u32, data: &Vec<u32>) -> (r: Option<RawIcon>)
    ensures
        r is Some <==> has_embedded_icon(format, value_len, data@),
        r matches Some(icon) ==> embedded_icon_matches(data@, icon),
{
    if format != 32 || value_len == 0 {
        return None;
    }
    let len = data.len();
    let mut cursor: usize = 0;
    let mut found = false;
    let mut best_start: usize = 0;
    let mut best_w: u32 = 0;
    let mut best_h: u32 = 0;
    let mut best_score: u64 = 0;
    let ghost mut best: Option<(int, int, int)> = None;
    while cursor < len
        invariant
            len == data@.len(),
            cursor <= len,
            scan_blocks(data@, 0, None) == scan_blocks(data@, cursor as int, best),
            found <==> best is Some,
            found ==> best == Some((best_start as int, best_w as int, best_h as int)),
            best_score == best_area(best),
            !found ==> best_score == 0,
            best matches Some(b) ==> 0 <= b.0 && b.0 + 2 + b.1 * b.2 <= data@.len() && b.1 * b.2
                > 0 && b.1 == data@[b.0] && b.2 == data@[b.0 + 1],
        ensures
            scan_blocks(data@, 0, None) == best,
            found <==> best is Some,
            found ==> best == Some((best_start as int, best_w as int, best_h as int)),
            best_score == best_area(best),
            best matches Some(b) ==> 0 <= b.0 && b.0 + 2 + b.1 * b.2 <= data@.len() && b.1 * b.2
                > 0 && b.1 == data@[b.0] && b.2 == data@[b.0 + 1],
        decreases len - cursor,
    {
        if len - cursor < 2 {
            break;
        }
        let w = data[cursor];
        let h = data[cursor + 1];
        assert(w as u64 * h as u64 <= u64::MAX) by (nonlinear_arith)
            requires
                w <= u32::MAX,
                h <= u32::MAX,
        ;
        let area: u64 = w as u64 * h as u64;
        if area > (len - cursor - 2) as u64 {
            break;
        }
        assert(area == w as int * h as int);
        let ghost next = if area > best_score {
            Some((cursor as int, w as int, h as int))
        } else {
            best
        };
        if area > best_score {
            found = true;
            best_start = cursor;
            best_w = w;
            best_h = h;
            best_score = area;
        }
        proof {
            best = next;
        }
        cursor = cursor + 2 + area as usize;
    }
    if !found {
        return None;
    }
    let count = best_score as usize;
    let pixels = pixels_to_rgba(data, best_start + 2, count);
    Some(RawIcon { width: best_w, height: best_h, data: pixels })
}

} // verus!
