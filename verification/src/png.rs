//! Which PNG files the image decoder can be handed.
//!
//! The decoder turns a palette into colours three bytes at a time, and stops the
//! program where the last colour is cut short.
use vstd::prelude::*;

verus! {

/// The colour type of an image whose pixels are numbers in a palette.
pub const PALETTED: u8 = 3;

/// The bytes start as those of a PNG file do.
pub open spec fn is_png(b: Seq<u8>) -> bool {
    &&& b.len() >= 8
    &&& b[0] == 137 && b[1] == 80 && b[2] == 78 && b[3] == 71
    &&& b[4] == 13 && b[5] == 10 && b[6] == 26 && b[7] == 10
}

/// The header, which is the first chunk, says that the image has a palette.
pub open spec fn is_paletted(b: Seq<u8>) -> bool {
    b.len() > 25 && b[25] == PALETTED
}

/// How many bytes of data the chunk at a place has.
pub open spec fn data_len(b: Seq<u8>, p: int) -> int {
    ((b[p] * 256 + b[p + 1]) * 256 + b[p + 2]) * 256 + b[p + 3]
}

/// The chunk at a place holds pixels.
pub open spec fn is_pixels(b: Seq<u8>, p: int) -> bool {
    b[p + 4] == 73 && b[p + 5] == 68 && b[p + 6] == 65 && b[p + 7] == 84
}

/// The chunk at a place is a palette.
pub open spec fn is_palette(b: Seq<u8>, p: int) -> bool {
    b[p + 4] == 80 && b[p + 5] == 76 && b[p + 6] == 84 && b[p + 7] == 69
}

/// From a chunk on, a palette comes before the first pixels that does not hold
/// whole colours. A chunk is its length, its type, its data and a checksum.
pub open spec fn is_cut_from(b: Seq<u8>, p: int) -> bool
    decreases
            if p < b.len() {
                b.len() - p
            } else {
                0
            },
{
    if p < 0 || p + 8 > b.len() || is_pixels(b, p) {
        false
    } else {
        is_palette(b, p) && data_len(b, p) % 3 != 0 || is_cut_from(b, p + 12 + data_len(b, p))
    }
}

/// The bytes are no PNG file, or one whose palette, if it needs one, holds whole
/// colours.
pub open spec fn is_decodable(b: Seq<u8>) -> bool {
    is_png(b) && is_paletted(b) ==> !is_cut_from(b, 8)
}

/// Whether the bytes are no PNG file, or one whose palette holds whole colours.
pub fn can_decode(b: &Vec<u8>) -> (r: bool)
    ensures
        r == is_decodable(b@),
{
    if b.len() < 26 || b[25] != PALETTED {
        return true;
    }
    if b[0] != 137 || b[1] != 80 || b[2] != 78 || b[3] != 71 || b[4] != 13 || b[5] != 10 || b[6]
        != 26 || b[7] != 10 {
        return true;
    }
    let mut p: usize = 8;
    while p <= b.len() - 8
        invariant
            b.len() >= 26,
            is_png(b@),
            is_paletted(b@),
            8 <= p,
            is_cut_from(b@, 8) == is_cut_from(b@, p as int),
        decreases b.len() - p,
    {
        if b[p + 4] == 73 && b[p + 5] == 68 && b[p + 6] == 65 && b[p + 7] == 84 {
            return true;
        }
        let len: u32 = ((b[p] as u32 * 256 + b[p + 1] as u32) * 256 + b[p + 2] as u32) * 256
            + b[p + 3] as u32;
        assert(len == data_len(b@, p as int));
        if b[p + 4] == 80 && b[p + 5] == 76 && b[p + 6] == 84 && b[p + 7] == 69 && len % 3 != 0 {
            return false;
        }
        if len as usize > b.len() - p || b.len() - p - len as usize <= 12 {
            assert(!is_cut_from(b@, p + 12 + len));
            return true;
        }
        p = p + 12 + len as usize;
    }
    true
}

/// Bytes that are no PNG file, or one without a palette, can be handed on.
pub proof fn law_only_palettes_are_looked_at(b: Seq<u8>)
    ensures
        b.len() < 26 || b[25] != 3 || b[0] != 137 || b[1] != 80 || b[2] != 78 || b[3] != 71 || b[4]
            != 13 || b[5] != 10 || b[6] != 26 || b[7] != 10 ==> is_decodable(b),
{
}

/// A palette that does not hold whole colours is found behind any number of
/// chunks that are neither palette nor pixels, and one that does is passed.
pub proof fn law_cut_palettes_are_found(b: Seq<u8>, p: int)
    requires
        0 <= p,
        p + 8 <= b.len(),
    ensures
        ({
            let len = 0x100_0000 * b[p] + 0x1_0000 * b[p + 1] + 0x100 * b[p + 2] + b[p + 3];
            let named = b.subrange(p + 4, p + 8);
            &&& named == seq![73u8, 68, 65, 84] ==> !is_cut_from(b, p)
            &&& named == seq![80u8, 76, 84, 69] && len % 3 != 0 ==> is_cut_from(b, p)
            &&& named == seq![80u8, 76, 84, 69] && len % 3 == 0 ==> is_cut_from(b, p)
                == is_cut_from(b, p + 12 + len)
            &&& named != seq![80u8, 76, 84, 69] && named != seq![73u8, 68, 65, 84]
                ==> is_cut_from(b, p) == is_cut_from(b, p + 12 + len)
        }),
{
    let named = b.subrange(p + 4, p + 8);
    assert(named.len() == 4);
    assert(is_pixels(b, p) ==> named =~= seq![73u8, 68, 65, 84]);
    assert(is_palette(b, p) ==> named =~= seq![80u8, 76, 84, 69]);
    assert(named[0] == b[p + 4] && named[1] == b[p + 5] && named[2] == b[p + 6] && named[3] == b[p
        + 7]);
}

} // verus!
