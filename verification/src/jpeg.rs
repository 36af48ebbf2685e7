//! Which JPEG files the image decoder can be handed.
//!
//! The decoder sizes its buffers by the first component of a frame, and some of
//! them by the colour space; it adds up brightness from block to block, and
//! scales the sum, without asking whether it still fits. Some files make it run
//! past a buffer or out of an integer, and stop the program. They are told by
//! their segments, which are found here as the decoder finds them. The coded data
//! are not read: of a large file it is known how far its brightness can get, not
//! how far it gets, so some are left out that the decoder would get through.
use vstd::arithmetic::power2::*;
use vstd::prelude::*;

verus! {

/// The marker of a baseline frame.
pub const BASELINE: u8 = 0xc0;

/// The marker of an extended sequential frame.
pub const EXTENDED: u8 = 0xc1;

/// The marker of a progressive frame.
pub const PROGRESSIVE: u8 = 0xc2;

/// The marker of a segment of code tables.
pub const CODES: u8 = 0xc4;

/// The marker of the end of the image.
pub const END: u8 = 0xd9;

/// The marker of a scan.
pub const SCAN: u8 = 0xda;

/// The marker of a segment of quantizers.
pub const QUANTIZERS: u8 = 0xdb;

/// The marker of the first segment that a program may use as it likes.
pub const APPLICATION: u8 = 0xe0;

/// The marker of the segment in which Adobe's programs note the colour space.
pub const ADOBE: u8 = 0xee;

/// Adobe's number for three components, luminance and two colour differences.
pub const ADOBE_YCC: u8 = 1;

/// Adobe's number for those three and black.
pub const ADOBE_YCCK: u8 = 2;

/// The widest category of the code tables that a frame of a film goes without.
pub const FILM_CATEGORY: u8 = 11;

/// The widest category that a code table may have.
pub const MAX_CATEGORY: u8 = 15;

/// The decoder counts bytes up to this many.
pub const MAX_LEN: u32 = 0x7fff_ffff;

/// How large a scaled sum may become, so that what the decoder adds to round it
/// still fits in an `i32`.
pub const MAX_SUM: u32 = 0x7fff_fbfb;

/// A side from which on the decoder cannot round a lone component up to blocks.
pub const VAST: u32 = 65529;

/// What the decoder is reading when it looks for the next segment.
#[derive(Clone, Copy, PartialEq, Eq, Structural)]
pub enum Part {
    /// The headers, up to the first scan.
    Headers,
    /// The data of a scan.
    Scan,
    /// What stands between two scans.
    Between,
}

/// The bytes start as those of a JPEG file do.
pub open spec fn is_jpeg(b: Seq<u8>) -> bool {
    b.len() >= 3 && b[0] == 0xff && b[1] == 0xd8 && b[2] == 0xff
}

/// The bytes are no JPEG file, or one whose bytes the decoder can count.
pub open spec fn is_readable(b: Seq<u8>) -> bool {
    is_jpeg(b) ==> b.len() <= MAX_LEN
}

/// Two bytes as a number, the high one first.
pub open spec fn be16(b: Seq<u8>, p: int) -> int {
    b[p] * 256 + b[p + 1]
}

/// The first place at or behind `p` that holds a marker, or the end.
pub open spec fn next_marker(b: Seq<u8>, p: int) -> int
    decreases b.len() - p,
{
    if p + 1 >= b.len() {
        b.len() as int
    } else if b[p] == 0xff && b[p + 1] != 0 && b[p + 1] != 0xff {
        p
    } else {
        next_marker(b, p + 1)
    }
}

proof fn lemma_next_marker(b: Seq<u8>, p: int)
    requires
        p <= b.len(),
    ensures
        p <= next_marker(b, p) <= b.len(),
    decreases b.len() - p,
{
    if p + 1 < b.len() && !(b[p] == 0xff && b[p + 1] != 0 && b[p + 1] != 0xff) {
        lemma_next_marker(b, p + 1);
    }
}

/// A marker says that a scan starts over.
pub open spec fn is_restart(marker: u8) -> bool {
    0xd0 <= marker <= 0xd7
}

/// Where the segment at `i` ends. The decoder takes one byte too many of a
/// segment for programs that has no more than four.
pub open spec fn behind(b: Seq<u8>, i: int) -> int {
    if b[i + 1] == APPLICATION && be16(b, i + 2) == 6 {
        i + 9
    } else {
        i + 2 + be16(b, i + 2)
    }
}

/// What the decoder reads behind a segment.
pub open spec fn part_behind(marker: u8, part: Part) -> Part {
    if marker == SCAN {
        Part::Scan
    } else if part == Part::Headers {
        Part::Headers
    } else {
        Part::Between
    }
}

/// The places of the segments from `p` on, up to the end of the image. None where
/// a segment is shorter than its own length, or where a scan is to start over
/// between two scans: whether a length follows there depends on the kind of frame.
pub open spec fn segments_from(b: Seq<u8>, p: int, part: Part) -> Option<Seq<int>>
    decreases
            if p < b.len() {
                b.len() - p
            } else {
                0
            },
    via segments_from_ends
{
    let i = next_marker(b, p);
    if i + 3 >= b.len() || b[i + 1] == END {
        Some(Seq::empty())
    } else if is_restart(b[i + 1]) && part == Part::Scan {
        segments_from(b, i + 2, part)
    } else if is_restart(b[i + 1]) && part == Part::Between || be16(b, i + 2) < 2 {
        None
    } else {
        match segments_from(b, behind(b, i), part_behind(b[i + 1], part)) {
            Some(rest) => Some(seq![i] + rest),
            None => None,
        }
    }
}

#[via_fn]
proof fn segments_from_ends(b: Seq<u8>, p: int, part: Part) {
    if p < b.len() {
        lemma_next_marker(b, p);
    }
}

/// The places of all segments.
pub open spec fn segments(b: Seq<u8>) -> Option<Seq<int>> {
    segments_from(b, 2, Part::Headers)
}

/// Places as numbers without bound.
pub open spec fn places(v: Seq<usize>) -> Seq<int> {
    Seq::new(v.len(), |k: int| v[k] as int)
}

/// A marker stands at a place, with some bytes behind it.
pub open spec fn marked(b: Seq<u8>, p: int, marker: u8, bytes: int) -> bool {
    0 <= p && p + 2 + bytes <= b.len() && b[p] == 0xff && b[p + 1] == marker
}

/// How many components a frame header says it has.
pub open spec fn component_count(b: Seq<u8>, p: int) -> int {
    b[p + 9] as int
}

/// A frame header of some kind stands at a place, with all its components.
pub open spec fn frame_at(b: Seq<u8>, p: int, marker: u8) -> bool {
    &&& marked(b, p, marker, 8)
    &&& 1 <= component_count(b, p) <= 4
    &&& marked(b, p, marker, 8 + 3 * component_count(b, p))
    &&& be16(b, p + 2) == 8 + 3 * component_count(b, p)
    &&& b[p + 4] == 8
}

/// How many pixels high a frame is.
pub open spec fn height(b: Seq<u8>, p: int) -> int {
    be16(b, p + 5)
}

/// How many pixels wide a frame is.
pub open spec fn width(b: Seq<u8>, p: int) -> int {
    be16(b, p + 7)
}

/// How many samples across a frame takes of its component `i`.
pub open spec fn across(b: Seq<u8>, p: int, i: int) -> int {
    b[p + 11 + 3 * i] as int / 16
}

/// How many samples down a frame takes of its component `i`.
pub open spec fn down(b: Seq<u8>, p: int, i: int) -> int {
    b[p + 11 + 3 * i] as int % 16
}

/// Which quantizers a frame uses for its component `i`.
pub open spec fn quantizers(b: Seq<u8>, p: int, i: int) -> u8 {
    b[p + 12 + 3 * i]
}

/// Some component of a frame has more samples across than the first.
pub open spec fn outgrows_first(b: Seq<u8>, p: int) -> bool {
    exists|i: int|
        0 <= i < component_count(b, p) && #[trigger] across(b, p, i) > across(b, p, 0)
}

/// Some component of a frame has more than one sample down.
pub open spec fn is_tall(b: Seq<u8>, p: int) -> bool {
    exists|i: int| 0 <= i < component_count(b, p) && #[trigger] down(b, p, i) > 1
}

/// The larger of two numbers.
pub open spec fn larger(x: int, y: int) -> int {
    if x < y {
        y
    } else {
        x
    }
}

/// The most samples across of the first `n` components, at least one.
pub open spec fn widest(b: Seq<u8>, p: int, n: nat) -> int
    decreases n,
{
    if n == 0 {
        1
    } else {
        larger(widest(b, p, (n - 1) as nat), across(b, p, n - 1))
    }
}

/// The most samples down of the first `n` components, at least one.
pub open spec fn tallest(b: Seq<u8>, p: int, n: nat) -> int
    decreases n,
{
    if n == 0 {
        1
    } else {
        larger(tallest(b, p, (n - 1) as nat), down(b, p, n - 1))
    }
}

/// How many times `step` blocks of eight pixels cover a side.
pub open spec fn units(side: int, step: int) -> int {
    (side + 8 * step - 1) / (8 * step)
}

/// How many blocks the frame at `p` has of its component `i`.
pub open spec fn blocks(b: Seq<u8>, p: int, i: int) -> int {
    let n = component_count(b, p) as nat;
    (units(width(b, p), widest(b, p, n)) * across(b, p, i)) * (units(
        height(b, p),
        tallest(b, p, n),
    ) * down(b, p, i))
}

/// A scan header that names fewer than `n` components stands at a place.
pub open spec fn part_scan_at(b: Seq<u8>, q: int, n: int) -> bool {
    marked(b, q, SCAN, 3) && be16(b, q + 2) == 6 + 2 * b[q + 4] && b[q + 4] < n
}

/// The components do not all come in one scan.
pub open spec fn is_split(b: Seq<u8>, s: Seq<int>, n: int) -> bool {
    exists|k: int| 0 <= k < s.len() && #[trigger] part_scan_at(b, s[k], n)
}

/// How many of the first `k` segments are scans.
pub open spec fn scan_count(b: Seq<u8>, s: Seq<int>, k: nat) -> int
    decreases k,
{
    if k == 0 {
        0
    } else {
        scan_count(b, s, (k - 1) as nat) + if b[s[k - 1] + 1] == SCAN {
            1int
        } else {
            0
        }
    }
}

/// Adobe's segment stands at a place and gives a colour space.
pub open spec fn adobe_at(b: Seq<u8>, q: int, space: u8) -> bool {
    &&& marked(b, q, ADOBE, 14)
    &&& b[q + 4] == 65 && b[q + 5] == 100 && b[q + 6] == 111 && b[q + 7] == 98 && b[q + 8] == 101
    &&& b[q + 15] == space
}

/// Adobe's segment at `q` gives a colour space that the frame at `p` lacks
/// components for, or has too many. A frame header overrules a segment before
/// it, but not one that has two components.
pub open spec fn unfit_space_at(b: Seq<u8>, p: int, q: int) -> bool {
    let n = component_count(b, p);
    ||| n == 4 && p < q && adobe_at(b, q, ADOBE_YCC)
    ||| n == 2 && adobe_at(b, q, ADOBE_YCCK)
    ||| n == 1 && p < q && adobe_at(b, q, ADOBE_YCCK)
}

/// The file gives a colour space that does not fit the frame at `p`.
pub open spec fn has_unfit_space(b: Seq<u8>, s: Seq<int>, p: int) -> bool {
    exists|k: int| 0 <= k < s.len() && #[trigger] unfit_space_at(b, p, s[k])
}

/// The largest first quantizer under a number, in the tables between two places.
/// A table is a byte with its width and its number, and 64 quantizers of one or
/// two bytes.
pub open spec fn quantizer_in(b: Seq<u8>, p: int, end: int, number: u8) -> int
    decreases end - p,
{
    let wide = b[p] >= 16;
    let len: int = if wide {
        129
    } else {
        65
    };
    if p + len > end || p + len > b.len() {
        0
    } else {
        let first = if wide {
            be16(b, p + 1)
        } else {
            b[p + 1] as int
        };
        larger(
            if b[p] % 16 == number {
                first
            } else {
                0
            },
            quantizer_in(b, p + len, end, number),
        )
    }
}

/// The largest first quantizer under a number, in the first `k` segments.
pub open spec fn top_quantizer(b: Seq<u8>, s: Seq<int>, k: nat, number: u8) -> int
    decreases k,
{
    if k == 0 {
        0
    } else {
        larger(
            top_quantizer(b, s, (k - 1) as nat, number),
            if b[s[k - 1] + 1] == QUANTIZERS {
                quantizer_in(b, s[k - 1] + 4, behind(b, s[k - 1]), number)
            } else {
                0
            },
        )
    }
}

/// The sum of `n` bytes.
pub open spec fn byte_sum(b: Seq<u8>, p: int, n: nat) -> nat
    decreases n,
{
    if n == 0 {
        0
    } else {
        byte_sum(b, p, (n - 1) as nat) + b[p + n - 1] as nat
    }
}

/// The largest of `n` bytes that can be a category, or zero.
pub open spec fn byte_top(b: Seq<u8>, p: int, n: nat) -> int
    decreases n,
{
    if n == 0 {
        0
    } else {
        larger(
            byte_top(b, p, (n - 1) as nat),
            if b[p + n - 1] <= MAX_CATEGORY {
                b[p + n - 1] as int
            } else {
                0
            },
        )
    }
}

/// The widest category of a difference of brightness, in the code tables between
/// two places. A table is a byte with its kind, where zero is the kind for such
/// differences, 16 bytes that say how many codes it has of each length, and a
/// byte for each code.
pub open spec fn category_in(b: Seq<u8>, p: int, end: int) -> int
    decreases end - p,
{
    let n = byte_sum(b, p + 1, 16);
    if p + 17 + n > end || p + 17 + n > b.len() {
        0
    } else {
        larger(
            if b[p] < 16 {
                byte_top(b, p + 17, n)
            } else {
                0
            },
            category_in(b, p + 17 + n, end),
        )
    }
}

/// A segment says that the file is a frame of a film, which needs no code tables.
pub open spec fn film_at(b: Seq<u8>, q: int) -> bool {
    &&& marked(b, q, APPLICATION, 7)
    &&& b[q + 4] == 65 && b[q + 5] == 86 && b[q + 6] == 73 && b[q + 7] == 49 && b[q + 8] == 0
}

/// The widest category of a difference of brightness that the segment at `q`
/// brings.
pub open spec fn category_at(b: Seq<u8>, q: int) -> int {
    if b[q + 1] == CODES {
        category_in(b, q + 4, behind(b, q))
    } else if film_at(b, q) {
        FILM_CATEGORY as int
    } else {
        0
    }
}

/// The widest category of a difference of brightness, in the first `k` segments.
pub open spec fn top_category(b: Seq<u8>, s: Seq<int>, k: nat) -> int
    decreases k,
{
    if k == 0 {
        0
    } else {
        larger(top_category(b, s, (k - 1) as nat), category_at(b, s[k - 1]))
    }
}

/// How far from zero the brightness of component `i` can get: each block adds a
/// difference of at most the widest category, in every scan, and the sum is
/// scaled.
pub open spec fn reach(b: Seq<u8>, s: Seq<int>, p: int, i: int) -> int {
    let swing = pow2(top_category(b, s, s.len()) as nat) - 1;
    blocks(b, p, i) * scan_count(b, s, s.len()) * swing * top_quantizer(
        b,
        s,
        s.len(),
        quantizers(b, p, i),
    )
}

/// The brightness of some component of a frame can get out of an integer.
pub open spec fn is_unbounded(b: Seq<u8>, s: Seq<int>, p: int) -> bool {
    exists|i: int| 0 <= i < component_count(b, p) && #[trigger] reach(b, s, p, i) > MAX_SUM
}

/// A frame is a lone component that is sampled more than once, and has a side
/// that the decoder cannot round up.
pub open spec fn is_vast(b: Seq<u8>, p: int) -> bool {
    component_count(b, p) == 1 && b[p + 11] != 0x11 && (width(b, p) >= VAST || height(b, p)
        >= VAST)
}

/// A frame header at `p` is one that the decoder has too little room for.
pub open spec fn overruns_at(b: Seq<u8>, s: Seq<int>, p: int) -> bool {
    ||| {
        &&& frame_at(b, p, BASELINE) || frame_at(b, p, EXTENDED)
        &&& outgrows_first(b, p) && is_split(b, s, component_count(b, p)) || is_unbounded(b, s, p)
            || is_vast(b, p)
    }
    ||| {
        &&& frame_at(b, p, PROGRESSIVE)
        &&& outgrows_first(b, p) && is_tall(b, p) || has_unfit_space(b, s, p)
    }
}

/// The bytes are no JPEG file, or one that the decoder has room for.
pub open spec fn is_decodable(b: Seq<u8>) -> bool {
    is_jpeg(b) ==> b.len() <= MAX_LEN && (segments(b) matches Some(s) && forall|k: int|
        0 <= k < s.len() ==> !#[trigger] overruns_at(b, s, s[k]))
}

spec fn joined(found: Seq<int>, rest: Option<Seq<int>>) -> Option<Seq<int>> {
    match rest {
        Some(r) => Some(found + r),
        None => None,
    }
}

fn find_marker(b: &Vec<u8>, p: usize) -> (i: usize)
    requires
        p <= b.len(),
    ensures
        i == next_marker(b@, p as int),
        p <= i <= b.len(),
{
    let mut i: usize = p;
    while b.len() - i >= 2
        invariant
            p <= i <= b.len(),
            next_marker(b@, p as int) == next_marker(b@, i as int),
        decreases b.len() - i,
    {
        if b[i] == 0xff && b[i + 1] != 0 && b[i + 1] != 0xff {
            return i;
        }
        i += 1;
    }
    b.len()
}

fn find_segments(b: &Vec<u8>) -> (r: Option<Vec<usize>>)
    requires
        3 <= b.len() <= MAX_LEN,
    ensures
        match r {
            Some(v) => segments(b@) == Some(places(v@)) && lie_in(b@, v@) && v.len() <= b.len(),
            None => segments(b@) is None,
        },
{
    let mut found: Vec<usize> = Vec::new();
    let mut p: usize = 2;
    let mut part: Part = Part::Headers;
    assert(places(found@) =~= Seq::empty());
    assert(segments(b@) == joined(places(found@), segments(b@))) by {
        if let Some(s) = segments(b@) {
            assert(Seq::<int>::empty() + s =~= s);
        }
    }
    loop
        invariant
            b.len() <= MAX_LEN,
            lie_in(b@, found@),
            found.len() <= p,
            found.len() <= b.len(),
            segments(b@) == joined(places(found@), segments_from(b@, p as int, part)),
        decreases
                if p < b.len() {
                    b.len() - p
                } else {
                    0
                },
    {
        if p >= b.len() {
            assert(places(found@) + Seq::<int>::empty() =~= places(found@));
            return Some(found);
        }
        let i: usize = find_marker(b, p);
        if b.len() - i <= 3 || b[i + 1] == END {
            assert(places(found@) + Seq::<int>::empty() =~= places(found@));
            return Some(found);
        }
        let marker: u8 = b[i + 1];
        let restart: bool = 0xd0 <= marker && marker <= 0xd7;
        if restart && part == Part::Scan {
            p = i + 2;
        } else {
            let len: usize = b[i + 2] as usize * 256 + b[i + 3] as usize;
            if restart && part == Part::Between || len < 2 {
                return None;
            }
            let next: usize = if marker == APPLICATION && len == 6 {
                i + 9
            } else {
                i + 2 + len
            };
            let later: Part = if marker == SCAN {
                Part::Scan
            } else if part == Part::Headers {
                Part::Headers
            } else {
                Part::Between
            };
            let ghost before = places(found@);
            found.push(i);
            proof {
                assert(places(found@) =~= before.push(i as int));
                if let Some(rest) = segments_from(b@, next as int, later) {
                    assert(before + (seq![i as int] + rest) =~= places(found@) + rest);
                }
            }
            p = next;
            part = later;
        }
    }
}

/// The places lie in the file, each with a marker and a length.
spec fn lie_in(b: Seq<u8>, s: Seq<usize>) -> bool {
    b.len() <= MAX_LEN && forall|k: int| 0 <= k < s.len() ==> #[trigger] s[k] + 3 < b.len()
}

fn segment_end(b: &Vec<u8>, q: usize) -> (r: usize)
    requires
        q + 3 < b.len() <= MAX_LEN,
    ensures
        r == behind(b@, q as int),
{
    let len: usize = b[q + 2] as usize * 256 + b[q + 3] as usize;
    if b[q + 1] == APPLICATION && len == 6 {
        q + 9
    } else {
        q + 2 + len
    }
}

fn is_marked(b: &Vec<u8>, p: usize, marker: u8, bytes: usize) -> (r: bool)
    requires
        p < b.len(),
        bytes <= 20,
    ensures
        r == marked(b@, p as int, marker, bytes as int),
{
    b.len() - p >= 2 && b.len() - p - 2 >= bytes && b[p] == 0xff && b[p + 1] == marker
}

fn read_be16(b: &Vec<u8>, p: usize) -> (r: u32)
    requires
        p + 1 < b.len(),
    ensures
        r == be16(b@, p as int),
        r <= 65535,
{
    b[p] as u32 * 256 + b[p + 1] as u32
}

fn is_frame(b: &Vec<u8>, p: usize, marker: u8) -> (r: bool)
    requires
        p < b.len(),
    ensures
        r == frame_at(b@, p as int, marker),
{
    if !is_marked(b, p, marker, 8) {
        return false;
    }
    let n: u8 = b[p + 9];
    1 <= n && n <= 4 && is_marked(b, p, marker, 8 + 3 * n as usize) && read_be16(b, p + 2) == 8 + 3
        * n as u32 && b[p + 4] == 8
}

fn first_is_outgrown(b: &Vec<u8>, p: usize) -> (r: bool)
    requires
        p + 10 + 3 * component_count(b@, p as int) <= b.len(),
        component_count(b@, p as int) >= 1,
    ensures
        r == outgrows_first(b@, p as int),
{
    let n: usize = b[p + 9] as usize;
    let first: u8 = b[p + 11] / 16;
    assert(first == across(b@, p as int, 0));
    let mut i: usize = 0;
    while i < n
        invariant
            n == component_count(b@, p as int),
            p + 10 + 3 * n <= b.len(),
            first == across(b@, p as int, 0),
            forall|j: int| 0 <= j < i ==> #[trigger] across(b@, p as int, j) <= first,
        decreases n - i,
    {
        assert(across(b@, p as int, i as int) == b@[p + 11 + 3 * i] as int / 16);
        if b[p + 11 + 3 * i] / 16 > first {
            return true;
        }
        i += 1;
    }
    false
}

fn has_height(b: &Vec<u8>, p: usize) -> (r: bool)
    requires
        p + 10 + 3 * component_count(b@, p as int) <= b.len(),
    ensures
        r == is_tall(b@, p as int),
{
    let n: usize = b[p + 9] as usize;
    let mut i: usize = 0;
    while i < n
        invariant
            n == component_count(b@, p as int),
            p + 10 + 3 * n <= b.len(),
            forall|j: int| 0 <= j < i ==> #[trigger] down(b@, p as int, j) <= 1,
        decreases n - i,
    {
        assert(down(b@, p as int, i as int) == b@[p + 11 + 3 * i] as int % 16);
        if b[p + 11 + 3 * i] % 16 > 1 {
            return true;
        }
        i += 1;
    }
    false
}

/// The most samples across and the most samples down that a component has.
fn most_samples(b: &Vec<u8>, p: usize) -> (r: (u32, u32))
    requires
        p + 10 + 3 * component_count(b@, p as int) <= b.len(),
    ensures
        r.0 == widest(b@, p as int, component_count(b@, p as int) as nat),
        r.1 == tallest(b@, p as int, component_count(b@, p as int) as nat),
        1 <= r.0 <= 15,
        1 <= r.1 <= 15,
{
    let n: usize = b[p + 9] as usize;
    let mut x: u32 = 1;
    let mut y: u32 = 1;
    let mut i: usize = 0;
    while i < n
        invariant
            n == component_count(b@, p as int),
            p + 10 + 3 * n <= b.len(),
            i <= n,
            x == widest(b@, p as int, i as nat),
            y == tallest(b@, p as int, i as nat),
            1 <= x <= 15,
            1 <= y <= 15,
        decreases n - i,
    {
        let factors: u32 = b[p + 11 + 3 * i] as u32;
        assert(across(b@, p as int, i as int) == factors / 16);
        assert(down(b@, p as int, i as int) == factors % 16);
        if factors / 16 > x {
            x = factors / 16;
        }
        if factors % 16 > y {
            y = factors % 16;
        }
        i += 1;
    }
    (x, y)
}

fn has_part_scan(b: &Vec<u8>, s: &Vec<usize>, n: u8) -> (r: bool)
    requires
        lie_in(b@, s@),
    ensures
        r == is_split(b@, places(s@), n as int),
{
    let mut k: usize = 0;
    while k < s.len()
        invariant
            k <= s.len(),
            lie_in(b@, s@),
            forall|j: int| 0 <= j < k ==> !#[trigger] part_scan_at(b@, places(s@)[j], n as int),
        decreases s.len() - k,
    {
        let q: usize = s[k];
        let part: bool = is_marked(b, q, SCAN, 3) && read_be16(b, q + 2) == 6 + 2 * b[q + 4] as u32
            && b[q + 4] < n;
        assert(part == part_scan_at(b@, places(s@)[k as int], n as int));
        if part {
            return true;
        }
        k += 1;
    }
    false
}

fn count_scans(b: &Vec<u8>, s: &Vec<usize>) -> (r: usize)
    requires
        lie_in(b@, s@),
    ensures
        r == scan_count(b@, places(s@), s@.len()),
        r <= s.len(),
{
    let mut n: usize = 0;
    let mut k: usize = 0;
    while k < s.len()
        invariant
            n <= k <= s.len(),
            lie_in(b@, s@),
            n == scan_count(b@, places(s@), k as nat),
        decreases s.len() - k,
    {
        if b[s[k] + 1] == SCAN {
            n += 1;
        }
        k += 1;
    }
    n
}

fn is_adobe(b: &Vec<u8>, q: usize, space: u8) -> (r: bool)
    requires
        q < b.len(),
    ensures
        r == adobe_at(b@, q as int, space),
{
    is_marked(b, q, ADOBE, 14) && b[q + 4] == 65 && b[q + 5] == 100 && b[q + 6] == 111 && b[q + 7]
        == 98 && b[q + 8] == 101 && b[q + 15] == space
}

fn names_unfit_space(b: &Vec<u8>, s: &Vec<usize>, p: usize) -> (r: bool)
    requires
        lie_in(b@, s@),
        p + 9 < b.len(),
    ensures
        r == has_unfit_space(b@, places(s@), p as int),
{
    let n: u8 = b[p + 9];
    let mut k: usize = 0;
    while k < s.len()
        invariant
            k <= s.len(),
            lie_in(b@, s@),
            n == component_count(b@, p as int),
            forall|j: int| 0 <= j < k ==> !#[trigger] unfit_space_at(b@, p as int, places(s@)[j]),
        decreases s.len() - k,
    {
        let q: usize = s[k];
        let unfit: bool = (n == 4 && p < q && is_adobe(b, q, ADOBE_YCC)) || (n == 2 && is_adobe(
            b,
            q,
            ADOBE_YCCK,
        )) || (n == 1 && p < q && is_adobe(b, q, ADOBE_YCCK));
        assert(unfit == unfit_space_at(b@, p as int, places(s@)[k as int]));
        if unfit {
            return true;
        }
        k += 1;
    }
    false
}

fn quantizer_between(b: &Vec<u8>, from: usize, end: usize, number: u8) -> (r: u32)
    requires
        from <= b.len() <= MAX_LEN,
    ensures
        r == quantizer_in(b@, from as int, end as int, number),
        r <= 65535,
{
    let mut top: u32 = 0;
    let mut p: usize = from;
    while p < b.len() && p < end
        invariant
            p <= b.len() <= MAX_LEN,
            top <= 65535,
            quantizer_in(b@, from as int, end as int, number) == larger(
                top as int,
                quantizer_in(b@, p as int, end as int, number),
            ),
            quantizer_in(b@, p as int, end as int, number) >= 0,
        decreases b.len() - p,
    {
        let wide: bool = b[p] >= 16;
        let len: usize = if wide {
            129
        } else {
            65
        };
        if len > b.len() - p || len > end - p {
            return top;
        }
        let first: u32 = if wide {
            read_be16(b, p + 1)
        } else {
            b[p + 1] as u32
        };
        if b[p] % 16 == number && first > top {
            top = first;
        }
        proof {
            lemma_quantizer_in(b@, p + len, end as int, number);
        }
        p += len;
    }
    top
}

proof fn lemma_quantizer_in(b: Seq<u8>, p: int, end: int, number: u8)
    ensures
        quantizer_in(b, p, end, number) >= 0,
    decreases end - p,
{
    let len: int = if b[p] >= 16 {
        129
    } else {
        65
    };
    if p + len <= end && p + len <= b.len() {
        lemma_quantizer_in(b, p + len, end, number);
    }
}

fn first_quantizer(b: &Vec<u8>, s: &Vec<usize>, number: u8) -> (r: u32)
    requires
        lie_in(b@, s@),
    ensures
        r == top_quantizer(b@, places(s@), s@.len(), number),
        r <= 65535,
{
    let mut top: u32 = 0;
    let mut k: usize = 0;
    while k < s.len()
        invariant
            k <= s.len(),
            lie_in(b@, s@),
            top == top_quantizer(b@, places(s@), k as nat, number),
            top <= 65535,
        decreases s.len() - k,
    {
        let q: usize = s[k];
        if b[q + 1] == QUANTIZERS {
            let found: u32 = quantizer_between(b, q + 4, segment_end(b, q), number);
            if found > top {
                top = found;
            }
        }
        k += 1;
    }
    top
}

fn sum_bytes(b: &Vec<u8>, p: usize, n: usize) -> (r: usize)
    requires
        p + n <= b.len(),
        n <= 16,
    ensures
        r == byte_sum(b@, p as int, n as nat),
        r <= 255 * 16,
{
    let mut sum: usize = 0;
    let mut i: usize = 0;
    while i < n
        invariant
            p + n <= b.len(),
            i <= n <= 16,
            sum == byte_sum(b@, p as int, i as nat),
            sum <= 255 * i,
        decreases n - i,
    {
        sum += b[p + i] as usize;
        i += 1;
    }
    sum
}

fn top_byte(b: &Vec<u8>, p: usize, n: usize) -> (r: u32)
    requires
        p + n <= b.len(),
    ensures
        r == byte_top(b@, p as int, n as nat),
        r <= MAX_CATEGORY,
{
    let mut top: u32 = 0;
    let mut i: usize = 0;
    while i < n
        invariant
            p + n <= b.len(),
            i <= n,
            top == byte_top(b@, p as int, i as nat),
            top <= MAX_CATEGORY,
        decreases n - i,
    {
        let c: u8 = b[p + i];
        if c <= MAX_CATEGORY && c as u32 > top {
            top = c as u32;
        }
        i += 1;
    }
    top
}

proof fn lemma_category_in(b: Seq<u8>, p: int, end: int)
    ensures
        0 <= category_in(b, p, end) <= MAX_CATEGORY,
    decreases end - p,
{
    let n = byte_sum(b, p + 1, 16);
    if p + 17 + n <= end && p + 17 + n <= b.len() {
        lemma_byte_top(b, p + 17, n);
        lemma_category_in(b, p + 17 + n, end);
    }
}

proof fn lemma_byte_top(b: Seq<u8>, p: int, n: nat)
    ensures
        0 <= byte_top(b, p, n) <= MAX_CATEGORY,
    decreases n,
{
    if n > 0 {
        lemma_byte_top(b, p, (n - 1) as nat);
    }
}

fn category_between(b: &Vec<u8>, from: usize, end: usize) -> (r: u32)
    requires
        from <= b.len() <= MAX_LEN,
    ensures
        r == category_in(b@, from as int, end as int),
        r <= MAX_CATEGORY,
{
    let mut top: u32 = 0;
    let mut p: usize = from;
    proof {
        lemma_category_in(b@, p as int, end as int);
    }
    while p < b.len() && p < end
        invariant
            p <= b.len() <= MAX_LEN,
            top <= MAX_CATEGORY,
            category_in(b@, from as int, end as int) == larger(
                top as int,
                category_in(b@, p as int, end as int),
            ),
            category_in(b@, p as int, end as int) >= 0,
        decreases b.len() - p,
    {
        if b.len() - p < 17 {
            return top;
        }
        let n: usize = sum_bytes(b, p + 1, 16);
        if n > b.len() - p - 17 || n + 17 > end - p {
            return top;
        }
        if b[p] < 16 {
            let found: u32 = top_byte(b, p + 17, n);
            if found > top {
                top = found;
            }
        }
        proof {
            lemma_category_in(b@, p + 17 + n, end as int);
            lemma_byte_top(b@, p + 17, n as nat);
        }
        p = p + 17 + n;
    }
    top
}

fn is_film(b: &Vec<u8>, q: usize) -> (r: bool)
    requires
        q < b.len(),
    ensures
        r == film_at(b@, q as int),
{
    is_marked(b, q, APPLICATION, 7) && b[q + 4] == 65 && b[q + 5] == 86 && b[q + 6] == 73 && b[q
        + 7] == 49 && b[q + 8] == 0
}

fn widest_category(b: &Vec<u8>, s: &Vec<usize>) -> (r: u32)
    requires
        lie_in(b@, s@),
    ensures
        r == top_category(b@, places(s@), s@.len()),
        r <= MAX_CATEGORY,
{
    let mut top: u32 = 0;
    let mut k: usize = 0;
    while k < s.len()
        invariant
            k <= s.len(),
            lie_in(b@, s@),
            top == top_category(b@, places(s@), k as nat),
            top <= MAX_CATEGORY,
        decreases s.len() - k,
    {
        let q: usize = s[k];
        let found: u32 = if b[q + 1] == CODES {
            category_between(b, q + 4, segment_end(b, q))
        } else if is_film(b, q) {
            FILM_CATEGORY as u32
        } else {
            0
        };
        if found > top {
            top = found;
        }
        k += 1;
    }
    top
}

/// The largest difference of a category.
fn swing(category: u32) -> (r: u32)
    requires
        category <= MAX_CATEGORY,
    ensures
        r == pow2(category as nat) - 1,
        r <= 32767,
{
    let mut power: u32 = 1;
    let mut i: u32 = 0;
    proof {
        lemma2_to64();
    }
    while i < category
        invariant
            i <= category <= MAX_CATEGORY,
            power == pow2(i as nat),
            1 <= power <= 32768,
        decreases category - i,
    {
        proof {
            lemma2_to64();
            lemma_pow2_unfold((i + 1) as nat);
            if i < 14 {
                lemma_pow2_strictly_increases((i + 1) as nat, 15);
            }
            if i < 15 {
                lemma_pow2_strictly_increases(i as nat, 15);
            }
        }
        power = power * 2;
        i += 1;
    }
    power - 1
}

/// A side in units of `step` blocks.
fn count_units(side: u32, step: u32) -> (r: u32)
    requires
        side <= 65535,
        1 <= step <= 15,
    ensures
        r == units(side as int, step as int),
        r <= 8192,
{
    let r: u32 = (side + 8 * step - 1) / (8 * step);
    assert(r <= 8192) by (nonlinear_arith)
        requires
            side <= 65535,
            1 <= step <= 15,
            r == (side + 8 * step - 1) / (8 * step) as int,
    ;
    r
}

fn can_leave_bounds(b: &Vec<u8>, s: &Vec<usize>, p: usize) -> (r: bool)
    requires
        lie_in(b@, s@),
        s.len() <= MAX_LEN,
        p + 10 + 3 * component_count(b@, p as int) <= b.len(),
    ensures
        r == is_unbounded(b@, places(s@), p as int),
{
    let n: usize = b[p + 9] as usize;
    let (x, y) = most_samples(b, p);
    let cols: u32 = count_units(read_be16(b, p + 7), x);
    let rows: u32 = count_units(read_be16(b, p + 5), y);
    let scans: usize = count_scans(b, s);
    let step: u32 = swing(widest_category(b, s));
    let mut i: usize = 0;
    while i < n
        invariant
            lie_in(b@, s@),
            s.len() <= MAX_LEN,
            n == component_count(b@, p as int),
            p + 10 + 3 * n <= b.len(),
            x == widest(b@, p as int, n as nat),
            y == tallest(b@, p as int, n as nat),
            cols == units(width(b@, p as int), x as int) <= 8192,
            rows == units(height(b@, p as int), y as int) <= 8192,
            scans == scan_count(b@, places(s@), s@.len()) <= MAX_LEN,
            step == pow2(top_category(b@, places(s@), s@.len()) as nat) - 1,
            step <= 32767,
            forall|j: int| 0 <= j < i ==> #[trigger] reach(b@, places(s@), p as int, j) <= MAX_SUM,
        decreases n - i,
    {
        let a: u32 = b[p + 11 + 3 * i] as u32 / 16;
        let d: u32 = b[p + 11 + 3 * i] as u32 % 16;
        let q: u32 = first_quantizer(b, s, b[p + 12 + 3 * i]);
        assert(a == across(b@, p as int, i as int));
        assert(d == down(b@, p as int, i as int));
        let sum: u128 = scaled_sum(cols, a, rows, d, scans, step, q);
        assert(sum == reach(b@, places(s@), p as int, i as int));
        if sum > MAX_SUM as u128 {
            return true;
        }
        i += 1;
    }
    false
}

fn scaled_sum(cols: u32, a: u32, rows: u32, d: u32, scans: usize, step: u32, q: u32) -> (r: u128)
    requires
        cols <= 8192,
        rows <= 8192,
        a <= 15,
        d <= 15,
        scans <= MAX_LEN,
        step <= 32767,
        q <= 65535,
    ensures
        r == ((cols * a) * (rows * d)) * scans * step * q,
{
    assert(0 <= cols * a <= 122880) by (nonlinear_arith)
        requires
            0 <= cols <= 8192,
            0 <= a <= 15,
    ;
    assert(0 <= rows * d <= 122880) by (nonlinear_arith)
        requires
            0 <= rows <= 8192,
            0 <= d <= 15,
    ;
    let x: u128 = (cols * a) as u128;
    let y: u128 = (rows * d) as u128;
    assert(0 <= x * y <= 0x4_0000_0000) by (nonlinear_arith)
        requires
            0 <= x <= 122880,
            0 <= y <= 122880,
    ;
    let blocks: u128 = x * y;
    assert(0 <= blocks * scans <= 0x4_0000_0000 * 0x8000_0000) by (nonlinear_arith)
        requires
            0 <= blocks <= 0x4_0000_0000,
            0 <= scans <= 0x8000_0000,
    ;
    let added: u128 = blocks * scans as u128;
    assert(0 <= added * step <= 0x4_0000_0000 * 0x8000_0000 * 0x8000) by (nonlinear_arith)
        requires
            0 <= added <= 0x4_0000_0000 * 0x8000_0000,
            0 <= step <= 0x8000,
    ;
    let sum: u128 = added * step as u128;
    assert(0 <= sum * q <= 0x4_0000_0000 * 0x8000_0000 * 0x8000 * 0x1_0000) by (nonlinear_arith)
        requires
            0 <= sum <= 0x4_0000_0000 * 0x8000_0000 * 0x8000,
            0 <= q <= 0x1_0000,
    ;
    sum * q as u128
}

fn overruns(b: &Vec<u8>, s: &Vec<usize>, p: usize) -> (r: bool)
    requires
        lie_in(b@, s@),
        s.len() <= MAX_LEN,
        p < b.len(),
    ensures
        r == overruns_at(b@, places(s@), p as int),
{
    if is_frame(b, p, BASELINE) || is_frame(b, p, EXTENDED) {
        (first_is_outgrown(b, p) && has_part_scan(b, s, b[p + 9])) || can_leave_bounds(b, s, p) || (
        b[p + 9] == 1 && b[p + 11] != 0x11 && (read_be16(b, p + 7) >= VAST || read_be16(b, p + 5)
            >= VAST))
    } else if is_frame(b, p, PROGRESSIVE) {
        (first_is_outgrown(b, p) && has_height(b, p)) || names_unfit_space(b, s, p)
    } else {
        false
    }
}

/// Whether the bytes are no JPEG file, or one whose bytes the decoder can count.
pub fn can_read(b: &Vec<u8>) -> (r: bool)
    ensures
        r == is_readable(b@),
{
    b.len() < 3 || b[0] != 0xff || b[1] != 0xd8 || b[2] != 0xff || b.len() <= MAX_LEN as usize
}

/// Whether the bytes are no JPEG file, or one that the decoder has room for.
pub fn can_decode(b: &Vec<u8>) -> (r: bool)
    ensures
        r == is_decodable(b@),
{
    if b.len() < 3 || b[0] != 0xff || b[1] != 0xd8 || b[2] != 0xff {
        return true;
    }
    if b.len() > MAX_LEN as usize {
        return false;
    }
    let s: Vec<usize> = match find_segments(b) {
        Some(s) => s,
        None => return false,
    };
    let mut k: usize = 0;
    while k < s.len()
        invariant
            k <= s.len() <= MAX_LEN,
            b.len() <= MAX_LEN,
            is_jpeg(b@),
            segments(b@) == Some(places(s@)),
            lie_in(b@, s@),
            forall|j: int| 0 <= j < k ==> !#[trigger] overruns_at(b@, places(s@), places(s@)[j]),
        decreases s.len() - k,
    {
        let over: bool = overruns(b, &s, s[k]);
        assert(over == overruns_at(b@, places(s@), places(s@)[k as int]));
        if over {
            proof {
                let all = segments(b@)->0;
                assert(overruns_at(b@, all, all[k as int]));
            }
            return false;
        }
        k += 1;
    }
    true
}

/// The largest difference of brightness that a block can bring, scaled by the
/// quantizers with a number.
pub open spec fn largest_step(b: Seq<u8>, s: Seq<int>, number: u8) -> int {
    (pow2(top_category(b, s, s.len()) as nat) - 1) * top_quantizer(b, s, s.len(), number)
}

/// A frame as programs write it: luminance and two colour differences, which have
/// no more samples across than it. One that is not progressive comes in one scan
/// and takes at most two samples each way; it is at most 2048 pixels a side, or
/// 4096 where its steps of brightness are no larger than an encoder needs them.
pub open spec fn is_usual(b: Seq<u8>, s: Seq<int>, p: int) -> bool {
    &&& component_count(b, p) == 3
    &&& !outgrows_first(b, p)
    &&& !frame_at(b, p, PROGRESSIVE) ==> {
        &&& scan_count(b, s, s.len()) <= 1
        &&& forall|i: int| 0 <= i < 3 ==> #[trigger] across(b, p, i) <= 2
        &&& forall|i: int| 0 <= i < 3 ==> #[trigger] down(b, p, i) <= 2
        &&& {
            ||| {
                &&& width(b, p) <= 2048 && height(b, p) <= 2048
                &&& forall|number: u8| #[trigger] largest_step(b, s, number) <= 32767
            }
            ||| {
                &&& width(b, p) <= 4096 && height(b, p) <= 4096
                &&& forall|number: u8| #[trigger] largest_step(b, s, number) <= 8191
            }
        }
    }
}

proof fn lemma_usual_side(side: int, step: int, samples: int, most: int)
    requires
        0 <= side <= 8 * most,
        most % 2 == 0,
        1 <= step <= 2,
        0 <= samples <= step,
    ensures
        0 <= units(side, step) * samples <= most,
{
    if step == 1 {
        assert(units(side, step) == (side + 7) / 8);
    } else {
        assert(units(side, step) == (side + 15) / 16);
    }
    assert(0 <= units(side, step) * samples <= most) by (nonlinear_arith)
        requires
            step == 1 && 0 <= units(side, step) <= most || step == 2 && 0 <= 2 * units(side, step)
                <= most,
            0 <= samples <= step,
    ;
}

proof fn lemma_usual_product(x: int, y: int, most: int, scans: int, swing: int, q: int, step: int)
    requires
        0 <= x <= most,
        0 <= y <= most,
        0 <= scans <= 1,
        0 <= swing,
        0 <= q,
        swing * q <= step,
        most == 256 && step == 32767 || most == 512 && step == 8191,
    ensures
        (x * y) * scans * swing * q <= MAX_SUM,
{
    assert(0 <= x * y <= most * most) by (nonlinear_arith)
        requires
            0 <= x <= most,
            0 <= y <= most,
    ;
    let blocks = x * y;
    assert(0 <= blocks * scans <= most * most) by (nonlinear_arith)
        requires
            0 <= blocks <= most * most,
            0 <= scans <= 1,
    ;
    let added = blocks * scans;
    assert(added * swing * q == added * (swing * q)) by (nonlinear_arith);
    let scaled = swing * q;
    assert(added * scaled <= (most * most) * step) by (nonlinear_arith)
        requires
            0 <= added <= most * most,
            scaled <= step,
            0 <= step,
    ;
    assert(most * most == 65536 || most * most == 262144) by (nonlinear_arith)
        requires
            most == 256 || most == 512,
    ;
    assert((most * most) * step <= 2147418112) by (nonlinear_arith)
        requires
            most == 256 && step == 32767 || most == 512 && step == 8191,
    ;
}

proof fn lemma_usual_reach(b: Seq<u8>, s: Seq<int>, p: int, i: int)
    requires
        is_usual(b, s, p),
        !frame_at(b, p, PROGRESSIVE),
        0 <= i < 3,
    ensures
        reach(b, s, p, i) <= MAX_SUM,
{
    reveal_with_fuel(widest, 4);
    reveal_with_fuel(tallest, 4);
    let x = widest(b, p, 3);
    let y = tallest(b, p, 3);
    assert(across(b, p, 0) <= 2 && across(b, p, 1) <= 2 && across(b, p, 2) <= 2);
    assert(down(b, p, 0) <= 2 && down(b, p, 1) <= 2 && down(b, p, 2) <= 2);
    assert(1 <= x <= 2 && 0 <= across(b, p, i) <= x);
    assert(1 <= y <= 2 && 0 <= down(b, p, i) <= y);
    let number = quantizers(b, p, i);
    let c = top_category(b, s, s.len()) as nat;
    lemma_pow2_pos(c);
    lemma_scan_count(b, s, s.len());
    lemma_top_quantizer(b, s, s.len(), number);
    let small = width(b, p) <= 2048 && height(b, p) <= 2048 && largest_step(b, s, number) <= 32767;
    assert(small || width(b, p) <= 4096 && height(b, p) <= 4096 && largest_step(b, s, number)
        <= 8191);
    let most: int = if small {
        256
    } else {
        512
    };
    lemma_usual_side(width(b, p), x, across(b, p, i), most);
    lemma_usual_side(height(b, p), y, down(b, p, i), most);
    lemma_usual_product(
        units(width(b, p), x) * across(b, p, i),
        units(height(b, p), y) * down(b, p, i),
        most,
        scan_count(b, s, s.len()),
        pow2(c) - 1,
        top_quantizer(b, s, s.len(), number),
        if small {
            32767
        } else {
            8191
        },
    );
}

proof fn lemma_scan_count(b: Seq<u8>, s: Seq<int>, k: nat)
    ensures
        scan_count(b, s, k) >= 0,
    decreases k,
{
    if k > 0 {
        lemma_scan_count(b, s, (k - 1) as nat);
    }
}

proof fn lemma_top_quantizer(b: Seq<u8>, s: Seq<int>, k: nat, number: u8)
    ensures
        top_quantizer(b, s, k, number) >= 0,
    decreases k,
{
    if k > 0 {
        lemma_top_quantizer(b, s, (k - 1) as nat, number);
    }
}

/// A file is decoded when its segments can be told and its frame is a usual one.
pub proof fn law_usual_files_are_decoded(b: Seq<u8>, s: Seq<int>)
    requires
        b.len() <= MAX_LEN,
        segments(b) == Some(s),
        forall|k: int, m: u8|
            0 <= k < s.len() && #[trigger] frame_at(b, s[k], m) ==> is_usual(b, s, s[k]),
    ensures
        is_decodable(b),
{
    assert forall|k: int| 0 <= k < s.len() implies !#[trigger] overruns_at(b, s, s[k]) by {
        let p = s[k];
        if frame_at(b, p, BASELINE) || frame_at(b, p, EXTENDED) {
            assert(is_usual(b, s, p));
            assert(b[p + 1] != PROGRESSIVE);
            assert forall|i: int| 0 <= i < 3 implies #[trigger] reach(b, s, p, i) <= MAX_SUM by {
                lemma_usual_reach(b, s, p, i);
            }
        }
    }
}

/// Only files that start as JPEG files do are looked into, and of those none with
/// more bytes than an `i32` counts is handed on.
pub proof fn law_only_jpeg_files_are_looked_into(b: Seq<u8>)
    ensures
        b.len() < 3 || b[0] != 0xff || b[1] != 0xd8 || b[2] != 0xff ==> is_readable(b)
            && is_decodable(b),
        b.len() >= 3 && b[0] == 0xff && b[1] == 0xd8 && b[2] == 0xff && b.len() > i32::MAX
            ==> !is_readable(b) && !is_decodable(b),
        b.len() <= i32::MAX ==> is_readable(b),
{
}

/// The next marker is the first place that holds 255 and then a byte that is
/// neither 0 nor 255.
pub proof fn law_markers_are_found_in_order(b: Seq<u8>, p: int, j: int)
    requires
        0 <= p <= b.len(),
    ensures
        p <= next_marker(b, p) <= b.len(),
        next_marker(b, p) < b.len() ==> b[next_marker(b, p)] == 0xff && b[next_marker(b, p) + 1]
            != 0 && b[next_marker(b, p) + 1] != 0xff,
        p <= j < next_marker(b, p) && j + 1 < b.len() ==> b[j] != 0xff || b[j + 1] == 0 || b[j + 1]
            == 0xff,
    decreases b.len() - p,
{
    if p + 1 < b.len() && !(b[p] == 0xff && b[p + 1] != 0 && b[p + 1] != 0xff) {
        law_markers_are_found_in_order(b, p + 1, j);
    }
}

/// A frame's sides are two bytes each, the high one first, and a component's
/// samples across and down share a byte.
pub proof fn law_frames_are_read_high_byte_first(b: Seq<u8>, p: int, i: int)
    ensures
        height(b, p) == 0x100 * b[p + 5] + b[p + 6],
        width(b, p) == 0x100 * b[p + 7] + b[p + 8],
        0 <= down(b, p, i) < 16,
        16 * across(b, p, i) + down(b, p, i) == b[p + 11 + 3 * i],
        component_count(b, p) == b[p + 9],
        quantizers(b, p, i) == b[p + 12 + 3 * i],
{
}

/// A frame has as many blocks each way as cover its sides at the most samples
/// that a component has.
pub proof fn law_blocks_cover_the_frame(b: Seq<u8>, p: int, n: nat, i: int, side: int, step: int)
    requires
        0 <= i < n,
        side >= 0,
        step >= 1,
    ensures
        widest(b, p, n) >= across(b, p, i),
        tallest(b, p, n) >= down(b, p, i),
        widest(b, p, n) >= 1 && tallest(b, p, n) >= 1,
        8 * step * units(side, step) >= side,
        8 * step * (units(side, step) - 1) < side,
    decreases n,
{
    if i < n - 1 {
        law_blocks_cover_the_frame(b, p, (n - 1) as nat, i, side, step);
    } else {
        lemma_most_is_some(b, p, (n - 1) as nat);
    }
    let d = 8 * step;
    let u = units(side, step);
    vstd::arithmetic::div_mod::lemma_fundamental_div_mod(side + d - 1, d);
    vstd::arithmetic::div_mod::lemma_mod_bound(side + d - 1, d);
    assert(d * (u - 1) == d * u - d) by (nonlinear_arith);
}

proof fn lemma_most_is_some(b: Seq<u8>, p: int, n: nat)
    ensures
        widest(b, p, n) >= 1,
        tallest(b, p, n) >= 1,
    decreases n,
{
    if n > 0 {
        lemma_most_is_some(b, p, (n - 1) as nat);
    }
}

/// A progressive file is not handed on where a component outgrows the first one
/// across and one has more than one sample down, nor one in several scans where
/// a component outgrows the first.
pub proof fn law_outgrown_frames_are_left_out(
    b: Seq<u8>,
    s: Seq<int>,
    k: int,
    i: int,
    j: int,
    q: int,
)
    requires
        is_jpeg(b),
        segments(b) == Some(s),
        0 <= k < s.len(),
        0 <= i < component_count(b, s[k]),
        0 <= j < component_count(b, s[k]),
        0 <= q < s.len(),
        b[s[k] + 11 + 3 * i] as int / 16 > b[s[k] + 11] as int / 16,
    ensures
        frame_at(b, s[k], 0xc2) && b[s[k] + 11 + 3 * j] as int % 16 > 1 ==> !is_decodable(b),
        (frame_at(b, s[k], 0xc0) || frame_at(b, s[k], 0xc1)) && part_scan_at(
            b,
            s[q],
            component_count(b, s[k]),
        ) ==> !is_decodable(b),
{
    let p = s[k];
    assert(across(b, p, i) > across(b, p, 0));
    assert(outgrows_first(b, p));
    if b[p + 11 + 3 * j] as int % 16 > 1 {
        assert(down(b, p, j) > 1);
        assert(is_tall(b, p));
    }
    if part_scan_at(b, s[q], component_count(b, p)) {
        assert(is_split(b, s, component_count(b, p)));
    }
    let all = segments(b)->0;
    assert(overruns_at(b, s, s[k]) == overruns_at(b, all, all[k]));
}

} // verus!
