//! The per-voxel brightness jitter of the blocky mesher: a deterministic integer hash of the voxel
//! coordinates, so large flat regions of one material get a subtle grain instead of a poster colour.
//! The caller maps the 16 low bits to a brightness factor in `0.90 ..= 1.10`.

use vstd::prelude::*;
use vstd::arithmetic::div_mod::lemma_add_mod_noop;

verus! {

/// 2^32.
pub open spec fn word() -> int {
    0x1_0000_0000
}

/// The mixed hash before the final fold: `(x·2654435761 + y·40503 + z·668265263) mod 2^32`, each
/// coordinate itself taken mod 2^32.
pub open spec fn voxel_mix(x: int, y: int, z: int) -> int {
    ((x % word()) * 2_654_435_761 + (y % word()) * 40_503 + (z % word()) * 668_265_263) % word()
}

/// The 16 jitter bits of voxel `(x, y, z)`: the mix folded with its own top bits
/// (`h ^ (h >> 15)`), low 16 bits kept.
pub open spec fn jitter_bits_spec(x: int, y: int, z: int) -> u32 {
    let h = voxel_mix(x, y, z) as u32;
    (h ^ (h >> 15u32)) & 0xffffu32
}

proof fn lemma_cast_is_mod(x: usize)
    ensures
        (x as u32) as int == (x as int) % word(),
{
    assert((x as u32) == (x as u64 % 0x1_0000_0000u64) as u32) by (bit_vector);
    assert((x as u64) as int == x as int);
    assert((x as u64 % 0x1_0000_0000u64) as int == (x as u64) as int % 0x1_0000_0000);
}

/// The jitter bits of voxel `(x, y, z)`.
pub fn jitter_bits(x: usize, y: usize, z: usize) -> (b: u32)
    ensures
        b == jitter_bits_spec(x as int, y as int, z as int),
        b <= 0xffff,
{
    let xa = x as u32;
    let ya = y as u32;
    let za = z as u32;
    let m1 = xa.wrapping_mul(2_654_435_761);
    let m2 = ya.wrapping_mul(40_503);
    let m3 = za.wrapping_mul(668_265_263);
    let s1 = m1.wrapping_add(m2);
    let mut h = s1.wrapping_add(m3);
    proof {
        lemma_cast_is_mod(x);
        lemma_cast_is_mod(y);
        lemma_cast_is_mod(z);
        let w = word();
        let p1 = xa as int * 2_654_435_761;
        let p2 = ya as int * 40_503;
        let p3 = za as int * 668_265_263;
        assert(m1 as int == p1 % w);
        assert(m2 as int == p2 % w);
        assert(m3 as int == p3 % w);
        assert(s1 as int == (m1 as int + m2 as int) % w);
        lemma_add_mod_noop(p1, p2, w);
        assert(s1 as int == (p1 + p2) % w);
        assert(h as int == (s1 as int + m3 as int) % w);
        lemma_add_mod_noop(p1 + p2, p3, w);
        assert(h as int == (p1 + p2 + p3) % w);
        assert(h as int == voxel_mix(x as int, y as int, z as int));
    }
    h = h ^ (h >> 15);
    let b = h & 0xffff;
    assert(b <= 0xffff) by (bit_vector)
        requires
            b == h & 0xffff,
    ;
    b
}

} // verus!
