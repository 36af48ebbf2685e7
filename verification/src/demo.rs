//! The drifting orbs that run when no scene is given, and the palette.
//!
//! Everything random about them comes from hashing small numbers, so every run
//! looks the same. Random numbers are whole numbers of 2^-24.
use vstd::prelude::*;

use crate::level;

verus! {

/// Orbs along each side of the cube they start in.
pub const GRID: u32 = 10;

pub const ORBS: u32 = 1000;

/// One half, and the largest number that is at most 0.7 in single precision, in
/// parts of 2^-24.
pub const HALF: u32 = 0x80_0000;

pub const SEVEN_TENTHS: u32 = 0xb3_3333;

/// The hash: two rounds of multiply and fold, of which 24 bits are used.
pub open spec fn mixed(seed: u32) -> u32 {
    let a = seed.wrapping_mul(747796405).wrapping_add(2891336453);
    let b = a ^ (a >> 15u32);
    let c = b.wrapping_mul(2246822519);
    let d = c ^ (c >> 13u32);
    d & 0x00ff_ffff
}

/// A random number of 24 bits.
pub fn rand24(seed: u32) -> (r: u32)
    ensures
        r == mixed(seed),
        r < 0x0100_0000,
{
    let a: u32 = seed.wrapping_mul(747796405).wrapping_add(2891336453);
    let b: u32 = a ^ (a >> 15u32);
    let c: u32 = b.wrapping_mul(2246822519);
    let d: u32 = c ^ (c >> 13u32);
    assert(d & 0x00ff_ffff < 0x0100_0000) by (bit_vector);
    d & 0x00ff_ffff
}

/// How an orb starts.
#[derive(Clone, Copy, Debug, PartialEq, Eq)]
pub struct Orb {
    /// Its cell in the grid.
    pub cell: (u32, u32, u32),
    /// Random numbers for its velocity and its spin.
    pub velocity: (u32, u32, u32),
    pub spin: u32,
    pub mesh: u32,
    pub material: u32,
}

/// Orb number `i`. Half of them are spheres; each has one of the palette's
/// materials, all equally likely.
pub open spec fn orb_of(i: u32) -> Orb {
    Orb {
        cell: (i % GRID, i / GRID % GRID, i / (GRID * GRID) as u32),
        velocity: (
            mixed((i * 3) as u32),
            mixed((i * 3 + 1) as u32),
            mixed((i * 3 + 2) as u32),
        ),
        spin: mixed((i * 7 + 11) as u32),
        mesh: if mixed((i * 17 + 5) as u32) < HALF {
            level::MESH_SPHERE
        } else {
            level::MESH_CUBE
        },
        material: (mixed((i * 23 + 7) as u32) * level::PALETTE / 0x0100_0000) as u32,
    }
}

pub fn orb(i: u32) -> (r: Orb)
    requires
        i < ORBS,
    ensures
        r == orb_of(i),
{
    let mesh: u32 = if rand24(i * 17 + 5) < HALF {
        level::MESH_SPHERE
    } else {
        level::MESH_CUBE
    };
    let share: u32 = rand24(i * 23 + 7);
    Orb {
        cell: (i % GRID, i / GRID % GRID, i / (GRID * GRID)),
        velocity: (rand24(i * 3), rand24(i * 3 + 1), rand24(i * 3 + 2)),
        spin: rand24(i * 7 + 11),
        mesh,
        material: share * level::PALETTE / 0x0100_0000,
    }
}

/// Orbs to start with: none where a scene is loaded.
pub fn orb_count(scenes: usize) -> (r: u32)
    ensures
        r == if scenes == 0 {
            ORBS
        } else {
            0
        },
{
    if scenes == 0 {
        ORBS
    } else {
        0
    }
}

/// Every orb has a cell of its own inside the grid, a built-in mesh and a
/// material of the palette.
pub proof fn law_orbs_fill_the_grid(i: u32, j: u32)
    requires
        i < ORBS,
        j < ORBS,
    ensures
        orb_of(i).cell.0 < GRID,
        orb_of(i).cell.1 < GRID,
        orb_of(i).cell.2 < GRID,
        orb_of(i).cell == orb_of(j).cell ==> i == j,
        orb_of(i).mesh < level::MESH_BUILTIN_COUNT,
        orb_of(i).material < level::PALETTE,
{
    lemma_mixed_bound((i * 23 + 7) as u32);
}

proof fn lemma_mixed_bound(seed: u32)
    ensures
        mixed(seed) < 0x0100_0000,
{
    let a = seed.wrapping_mul(747796405).wrapping_add(2891336453);
    let b = a ^ (a >> 15u32);
    let c = b.wrapping_mul(2246822519);
    let d = c ^ (c >> 13u32);
    assert(d & 0x00ff_ffff < 0x0100_0000) by (bit_vector);
}

/// A material of the palette: colour and roughness as random numbers, and
/// whether it is a metal.
#[derive(Clone, Copy, Debug, PartialEq, Eq, Structural)]
pub struct Shade {
    pub r: u32,
    pub g: u32,
    pub b: u32,
    pub metallic: bool,
    pub roughness: u32,
}

pub open spec fn shade_of(k: u32) -> Shade {
    Shade {
        r: mixed((k * 13 + 1) as u32),
        g: mixed((k * 13 + 2) as u32),
        b: mixed((k * 13 + 3) as u32),
        metallic: mixed((k * 13 + 4) as u32) > SEVEN_TENTHS,
        roughness: mixed((k * 13 + 5) as u32),
    }
}

pub fn palette_material(k: u32) -> (r: Shade)
    requires
        k < level::PALETTE,
    ensures
        r == shade_of(k),
{
    Shade {
        r: rand24(k * 13 + 1),
        g: rand24(k * 13 + 2),
        b: rand24(k * 13 + 3),
        metallic: rand24(k * 13 + 4) > SEVEN_TENTHS,
        roughness: rand24(k * 13 + 5),
    }
}

/// The orbs are numbered along the grid, first along its rows.
pub proof fn law_orbs_are_numbered_by_cell(i: u32)
    requires
        i < 1000,
    ensures
        orb_of(i).cell.0 + 10 * orb_of(i).cell.1 + 100 * orb_of(i).cell.2 == i,
        orb_of(i).cell.0 < 10 && orb_of(i).cell.1 < 10 && orb_of(i).cell.2 < 10,
{
}

/// What is random about an orb comes from its number: three numbers in a row for
/// its velocity, others for its spin and shape, and one for its material, of
/// which each has an equal share.
pub proof fn law_orbs_are_drawn_by_number(i: u32)
    requires
        i < 1000,
    ensures
        orb_of(i).velocity.0 == mixed((3 * i) as u32),
        orb_of(i).velocity.1 == mixed((3 * i + 1) as u32),
        orb_of(i).velocity.2 == mixed((3 * i + 2) as u32),
        orb_of(i).spin == mixed((7 * i + 11) as u32),
        orb_of(i).mesh == (if mixed((17 * i + 5) as u32) < 0x80_0000 {
            0u32
        } else {
            1
        }),
        orb_of(i).material * 0x0100_0000 <= 24 * mixed((23 * i + 7) as u32) < (orb_of(i).material
            + 1) * 0x0100_0000,
{
    lemma_mixed_bound((i * 23 + 7) as u32);
}

/// What is random about a material of the palette comes from numbers of its own,
/// which no other material uses.
pub proof fn law_shades_are_drawn_by_number(k: u32)
    requires
        k < 24,
    ensures
        shade_of(k).r == mixed((13 * k + 1) as u32),
        shade_of(k).g == mixed((13 * k + 2) as u32),
        shade_of(k).b == mixed((13 * k + 3) as u32),
        shade_of(k).metallic <==> mixed((13 * k + 4) as u32) > 11744051,
        shade_of(k).roughness == mixed((13 * k + 5) as u32),
{
}

/// The hash multiplies, adds and folds, multiplies and folds once more, all with
/// 32 bits, and what is left of it are the low 24.
pub proof fn law_the_hash_multiplies_and_folds(seed: u32, a: u32, b: u32, c: u32)
    requires
        a == (seed * 747796405 + 2891336453) % 0x1_0000_0000,
        b == a ^ (a >> 15u32),
        c == (b * 2246822519) % 0x1_0000_0000,
    ensures
        mixed(seed) == (c ^ (c >> 13u32)) % 0x0100_0000,
{
    assert(seed.wrapping_mul(747796405) == (seed * 747796405) % 0x1_0000_0000);
    assert(a == seed.wrapping_mul(747796405).wrapping_add(2891336453));
    assert(c == b.wrapping_mul(2246822519));
    let d = c ^ (c >> 13u32);
    assert(d & 0x00ff_ffff == d % 0x0100_0000) by (bit_vector);
}

} // verus!
