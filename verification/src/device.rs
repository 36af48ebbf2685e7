//! Choices around the graphics device: which one, what surface, which frame.
//!
//! The device itself is not touched here. Its owner describes what there is,
//! and does what is decided.
use vstd::prelude::*;

use crate::bench;

verus! {

/// Frames that are recorded while others are still drawn.
pub const FRAMES_IN_FLIGHT: usize = 2;

/// The lag of the timing run is that of the frames in flight.
pub proof fn law_times_lag_by_the_frames_in_flight()
    ensures
        bench::LAG == FRAMES_IN_FLIGHT,
{
}

/// A queue family, as far as choosing goes.
#[derive(Clone, Copy, Debug, PartialEq, Eq, Structural)]
pub struct Family {
    pub graphics: bool,
    /// Whether it can present to the window's surface.
    pub present: bool,
}

/// A device, as far as choosing goes.
#[derive(Debug)]
pub struct Candidate {
    pub discrete: bool,
    pub families: Vec<Family>,
}

pub open spec fn usable(f: Family) -> bool {
    f.graphics && f.present
}

/// Whether `r` is the first family that can draw and present.
pub open spec fn is_family(families: Seq<Family>, r: Option<usize>) -> bool {
    match r {
        Some(i) => {
            &&& i < families.len()
            &&& usable(families[i as int])
            &&& forall|j: int| 0 <= j < i ==> !usable(#[trigger] families[j])
        },
        None => forall|j: int| 0 <= j < families.len() ==> !usable(#[trigger] families[j]),
    }
}

fn family_of(families: &Vec<Family>) -> (r: Option<usize>)
    ensures
        is_family(families@, r),
{
    for i in 0..families.len()
        invariant
            forall|j: int| 0 <= j < i ==> !usable(#[trigger] families@[j]),
    {
        if families[i].graphics && families[i].present {
            return Some(i);
        }
    }
    None
}

/// Whether a device can draw and present at all.
pub open spec fn able(c: Candidate) -> bool {
    exists|j: int| 0 <= j < c.families@.len() && usable(#[trigger] c.families@[j])
}

/// Whether `r` is the device to use: the first discrete one that is able, or
/// the first able one where no discrete one is.
pub open spec fn is_choice(devices: Seq<Candidate>, r: Option<(usize, usize)>) -> bool {
    match r {
        Some((i, f)) => {
            &&& i < devices.len()
            &&& is_family(devices[i as int].families@, Some(f))
            &&& forall|j: int|
                0 <= j < i ==> !((#[trigger] devices[j]).discrete && able(devices[j]))
            &&& devices[i as int].discrete || {
                &&& forall|j: int| 0 <= j < i ==> !able(#[trigger] devices[j])
                &&& forall|j: int|
                    0 <= j < devices.len() ==> !((#[trigger] devices[j]).discrete && able(
                        devices[j],
                    ))
            }
        },
        None => forall|j: int| 0 <= j < devices.len() ==> !able(#[trigger] devices[j]),
    }
}

/// The device to use and its queue family, if there is one.
pub fn pick_device(devices: &Vec<Candidate>) -> (r: Option<(usize, usize)>)
    ensures
        is_choice(devices@, r),
{
    let mut fallback: Option<(usize, usize)> = None;
    for i in 0..devices.len()
        invariant
            forall|j: int|
                0 <= j < i ==> !((#[trigger] devices@[j]).discrete && able(devices@[j])),
            match fallback {
                Some((k, f)) => {
                    &&& k < i
                    &&& is_family(devices@[k as int].families@, Some(f))
                    &&& !devices@[k as int].discrete
                    &&& forall|j: int| 0 <= j < k ==> !able(#[trigger] devices@[j])
                },
                None => forall|j: int| 0 <= j < i ==> !able(#[trigger] devices@[j]),
            },
    {
        let d: &Candidate = &devices[i];
        match family_of(&d.families) {
            Some(f) => {
                assert(usable(d.families@[f as int]));
                assert(able(*d));
                if d.discrete {
                    return Some((i, f));
                }
                if fallback.is_none() {
                    fallback = Some((i, f));
                }
            },
            None => {
                assert(!able(*d));
            },
        }
    }
    fallback
}

/// A surface format, by the numbers that Vulkan gives formats and colour spaces.
#[derive(Clone, Copy, Debug, PartialEq, Eq, Structural)]
pub struct SurfaceFormat {
    pub format: i32,
    pub color_space: i32,
}

/// Eight bits each of blue, green, red and alpha, encoded as sRGB.
pub const B8G8R8A8_SRGB: i32 = 50;

pub const SRGB_NONLINEAR: i32 = 0;

pub open spec fn preferred(f: SurfaceFormat) -> bool {
    f.format == B8G8R8A8_SRGB && f.color_space == SRGB_NONLINEAR
}

/// The format to present in: the preferred one where it is offered, else the
/// first.
pub fn choose_format(formats: &Vec<SurfaceFormat>) -> (r: SurfaceFormat)
    requires
        formats@.len() >= 1,
    ensures
        formats@.contains(r),
        preferred(r) || {
            &&& r == formats@[0]
            &&& forall|i: int| 0 <= i < formats@.len() ==> !preferred(#[trigger] formats@[i])
        },
        (exists|i: int|
            0 <= i < formats@.len() && (#[trigger] formats@[i]).format == 50
                && formats@[i].color_space == 0) ==> r.format == 50 && r.color_space == 0,
        (forall|i: int|
            0 <= i < formats@.len() ==> (#[trigger] formats@[i]).format != 50
                || formats@[i].color_space != 0) ==> r == formats@[0],
{
    for i in 0..formats.len()
        invariant
            forall|j: int| 0 <= j < i ==> !preferred(#[trigger] formats@[j]),
    {
        let f: SurfaceFormat = formats[i];
        if f.format == B8G8R8A8_SRGB && f.color_space == SRGB_NONLINEAR {
            assert(formats@[i as int] == f);
            return f;
        }
    }
    assert(formats@.contains(formats@[0]));
    formats[0]
}

#[derive(Clone, Copy, Debug, PartialEq, Eq, Structural)]
pub struct Extent {
    pub width: u32,
    pub height: u32,
}

/// What a surface allows. A current width of `u32::MAX` means that the surface
/// takes its size from its images.
#[derive(Clone, Copy, Debug, PartialEq, Eq, Structural)]
pub struct Capabilities {
    pub current: Extent,
    pub min: Extent,
    pub max: Extent,
    pub min_images: u32,
    /// The most images, or zero for no limit.
    pub max_images: u32,
}

/// A number moved into a range.
pub open spec fn clamped(n: u32, lo: u32, hi: u32) -> u32 {
    if n < lo {
        lo
    } else if n > hi {
        hi
    } else {
        n
    }
}

fn clamp(n: u32, lo: u32, hi: u32) -> (r: u32)
    ensures
        r == clamped(n, lo, hi),
{
    if n < lo {
        lo
    } else if n > hi {
        hi
    } else {
        n
    }
}

/// The size of the images: the surface's own, or the wish within its limits.
pub fn choose_extent(caps: &Capabilities, hint: Extent) -> (r: Extent)
    requires
        caps.current.width == u32::MAX ==> caps.min.width <= caps.max.width && caps.min.height
            <= caps.max.height,
    ensures
        caps.current.width != u32::MAX ==> r == caps.current,
        caps.current.width == u32::MAX ==> r == (Extent {
            width: clamped(hint.width, caps.min.width, caps.max.width),
            height: clamped(hint.height, caps.min.height, caps.max.height),
        }),
        caps.current.width == u32::MAX ==> {
            &&& caps.min.width <= r.width <= caps.max.width
            &&& caps.min.height <= r.height <= caps.max.height
            &&& r.width != hint.width ==> r.width == (if hint.width < caps.min.width {
                caps.min.width
            } else {
                caps.max.width
            }) && !(caps.min.width <= hint.width <= caps.max.width)
            &&& r.height != hint.height ==> r.height == (if hint.height < caps.min.height {
                caps.min.height
            } else {
                caps.max.height
            }) && !(caps.min.height <= hint.height <= caps.max.height)
        },
{
    if caps.current.width != u32::MAX {
        caps.current
    } else {
        Extent {
            width: clamp(hint.width, caps.min.width, caps.max.width),
            height: clamp(hint.height, caps.min.height, caps.max.height),
        }
    }
}

/// How many images to ask for: one more than needed, within the limit.
pub fn choose_image_count(caps: &Capabilities) -> (r: u32)
    requires
        caps.min_images < u32::MAX,
    ensures
        r == if caps.max_images > 0 && caps.min_images + 1 > caps.max_images {
            caps.max_images
        } else {
            (caps.min_images + 1) as u32
        },
{
    let count: u32 = caps.min_images + 1;
    if caps.max_images > 0 && count > caps.max_images {
        caps.max_images
    } else {
        count
    }
}

/// The size of an image on the device, which has at least one pixel each way.
pub fn image_extent(width: u32, height: u32) -> (r: Extent)
    ensures
        r.width == if width == 0 {
            1
        } else {
            width
        },
        r.height == if height == 0 {
            1
        } else {
            height
        },
{
    Extent {
        width: if width == 0 {
            1
        } else {
            width
        },
        height: if height == 0 {
            1
        } else {
            height
        },
    }
}

/// How many of `len` bytes fit into a mapped buffer.
pub fn writable(len: usize, size: u64) -> (r: usize)
    ensures
        r == if len as int <= size as int {
            len as int
        } else {
            size as int
        },
{
    if len as u64 <= size {
        len
    } else {
        size as usize
    }
}

/// The sample counts that a device offers besides one.
#[derive(Clone, Copy, Debug, PartialEq, Eq, Structural)]
pub struct SampleCounts {
    pub two: bool,
    pub four: bool,
    pub eight: bool,
}

/// Whether a number of samples can be had.
pub open spec fn offered(s: SampleCounts, n: u32) -> bool {
    n == 1 || (n == 2 && s.two) || (n == 4 && s.four) || (n == 8 && s.eight)
}

/// The most samples per pixel that the device offers, but no more than asked
/// for, and one where that leaves none.
pub fn choose_samples(offers: SampleCounts, wanted: u32) -> (r: u32)
    ensures
        offered(offers, r),
        r == 1 || r <= wanted,
        forall|n: u32| #[trigger] offered(offers, n) && n <= wanted ==> n <= r,
        r == 1 || (r == 2 && offers.two) || (r == 4 && offers.four) || (r == 8 && offers.eight),
        offers.two && wanted >= 2 ==> r >= 2,
        offers.four && wanted >= 4 ==> r >= 4,
        offers.eight && wanted >= 8 ==> r >= 8,
{
    if wanted >= 8 && offers.eight {
        8
    } else if wanted >= 4 && offers.four {
        4
    } else if wanted >= 2 && offers.two {
        2
    } else {
        1
    }
}

/// The device that is picked draws and presents with the family picked for it.
/// Any that can is passed over only for a better one: a discrete one before one
/// that is not, and an earlier one of the same sort.
pub proof fn law_the_best_device_is_picked(
    devices: Seq<Candidate>,
    r: Option<(usize, usize)>,
    j: int,
    g: int,
)
    requires
        is_choice(devices, r),
        0 <= j < devices.len(),
        0 <= g < devices[j].families@.len(),
        devices[j].families@[g].graphics && devices[j].families@[g].present,
    ensures
        r matches Some((i, f)) && {
            let d = devices[i as int];
            &&& i < devices.len()
            &&& f < d.families@.len()
            &&& d.families@[f as int].graphics && d.families@[f as int].present
            &&& devices[j].discrete ==> d.discrete
            &&& devices[j].discrete == d.discrete ==> i <= j
            &&& i == j ==> f <= g
        },
{
    assert(usable(devices[j].families@[g]));
    assert(able(devices[j]));
}

} // verus!
