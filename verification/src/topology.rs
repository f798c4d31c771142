//! Index topology of the engine's meshes.
//!
//! Vertex positions, normals and colours are floating point and are built by the caller; the
//! triangle lists that connect them are pure integer bookkeeping and live here. Every quad is two
//! triangles, six indices.

use vstd::prelude::*;
use vstd::arithmetic::div_mod::lemma_fundamental_div_mod_converse;

verus! {

/// The two triangles of a cube face whose four corners start at vertex `base`.
pub open spec fn face_quad(base: int) -> Seq<int> {
    seq![base, base + 1, base + 2, base, base + 2, base + 3]
}

/// Append the two triangles of a four-corner face starting at vertex `base`.
pub fn push_face_quad(indices: &mut Vec<u32>, base: u32)
    requires
        base as int + 3 <= u32::MAX,
    ensures
        final(indices)@.len() == old(indices)@.len() + 6,
        forall|k: int| 0 <= k < old(indices)@.len() ==> #[trigger] final(indices)@[k] == old(indices)@[k],
        forall|k: int|
            0 <= k < 6 ==> #[trigger] final(indices)@[old(indices)@.len() + k] as int == face_quad(base as int)[k],
        final(indices)@.subrange(old(indices)@.len() as int, old(indices)@.len() as int + 6) == seq![
            base,
            (base + 1) as u32,
            (base + 2) as u32,
            base,
            (base + 2) as u32,
            (base + 3) as u32,
        ],
        forall|k: int|
            old(indices)@.len() <= k < old(indices)@.len() + 6 ==> base <= #[trigger] final(indices)@[k]
                <= base + 3,
{
    indices.push(base);
    indices.push(base + 1);
    indices.push(base + 2);
    indices.push(base);
    indices.push(base + 2);
    indices.push(base + 3);
    proof {
        let o = old(indices)@.len() as int;
        assert(indices@.subrange(o, o + 6) =~= seq![
            base,
            (base + 1) as u32,
            (base + 2) as u32,
            base,
            (base + 2) as u32,
            (base + 3) as u32,
        ]);
        assert(indices@[o] == base);
        assert(indices@[o + 1] == base + 1);
        assert(indices@[o + 2] == base + 2);
        assert(indices@[o + 5] == base + 3);
    }
}

/// The index list of the six-face cube: face `f` uses vertices `4f .. 4f+3`.
pub fn cube_indices() -> (indices: Vec<u32>)
    ensures
        indices@.len() == 36,
        forall|f: int, k: int|
            0 <= f < 6 && 0 <= k < 6 ==> #[trigger] indices@[6 * f + k] as int == face_quad(4 * f)[k],
        forall|f: int, k: int|
            0 <= f < 6 && 0 <= k < 6 ==> 4 * f <= #[trigger] indices@[6 * f + k] <= 4 * f + 3,
        forall|k: int| 0 <= k < 36 ==> #[trigger] indices@[k] < 24,
        forall|v: int| 0 <= v < 24 ==> #[trigger] indices@.contains(v as u32),
{
    let mut indices: Vec<u32> = Vec::new();
    let mut f: u32 = 0;
    while f < 6
        invariant
            f <= 6,
            indices@.len() == 6 * f,
            forall|g: int, k: int|
                0 <= g < f && 0 <= k < 6 ==> #[trigger] indices@[6 * g + k] as int == face_quad(4 * g)[k],
        decreases 6 - f,
    {
        let ghost before = indices@;
        push_face_quad(&mut indices, 4 * f);
        proof {
            assert forall|g: int, k: int|
                0 <= g < f + 1 && 0 <= k < 6 implies #[trigger] indices@[6 * g + k] as int == face_quad(4 * g)[k] by {
                if g < f {
                    assert(indices@[6 * g + k] == before[6 * g + k]);
                } else {
                    assert(indices@[before.len() + k] as int == face_quad(4 * f as int)[k]);
                }
            }
        }
        f = f + 1;
    }
    proof {
        lemma_cube_covers_every_vertex(indices@);
        assert forall|f: int, k: int|
            0 <= f < 6 && 0 <= k < 6 implies 4 * f <= #[trigger] indices@[6 * f + k] <= 4 * f + 3 by {
            lemma_face_quad_spans_its_corners(4 * f);
        }
    }
    indices
}

/// The two triangles of UV-sphere quad `q` (ring `q / sectors`, sector `q % sectors`), wound
/// counter-clockwise seen from outside. Vertex `(ring, sector)` is `ring·(sectors+1) + sector`.
pub open spec fn sphere_quad(q: int, sectors: int) -> Seq<int> {
    let stride = sectors + 1;
    let a = (q / sectors) * stride + q % sectors;
    let b = a + stride;
    seq![a, a + 1, b, a + 1, b + 1, b]
}

/// The index list of a UV sphere of `rings` × `sectors` quads over `(rings+1)·(sectors+1)`
/// vertices, quads enumerated ring by ring.
pub fn uv_sphere_indices(rings: usize, sectors: usize) -> (indices: Vec<u32>)
    requires
        (rings + 1) * (sectors + 1) <= u32::MAX,
    ensures
        indices@.len() == 6 * rings * sectors,
        forall|q: int, k: int|
            0 <= q < rings * sectors && 0 <= k < 6 ==> #[trigger] indices@[6 * q + k] as int
                == sphere_quad(q, sectors as int)[k],
{
    assert(rings * (sectors + 1) <= (rings + 1) * (sectors + 1)) by (nonlinear_arith);
    assert(sectors + 1 <= (rings + 1) * (sectors + 1)) by (nonlinear_arith);
    assert(rings + 1 <= (rings + 1) * (sectors + 1)) by (nonlinear_arith);
    let stride = (sectors + 1) as u32;
    let mut indices: Vec<u32> = Vec::new();
    let mut i: u32 = 0;
    let nr = rings as u32;
    let ns = sectors as u32;
    while i < nr
        invariant
            nr == rings,
            ns == sectors,
            stride == sectors + 1,
            (rings + 1) * (sectors + 1) <= u32::MAX,
            i <= rings,
            indices@.len() == 6 * (i * sectors),
            forall|q: int, k: int|
                0 <= q < i * sectors && 0 <= k < 6 ==> #[trigger] indices@[6 * q + k] as int
                    == sphere_quad(q, sectors as int)[k],
        decreases nr - i,
    {
        let mut j: u32 = 0;
        while j < ns
            invariant
                nr == rings,
                ns == sectors,
                stride == sectors + 1,
                (rings + 1) * (sectors + 1) <= u32::MAX,
                i < rings,
                j <= sectors,
                indices@.len() == 6 * (i * sectors + j),
                forall|q: int, k: int|
                    0 <= q < i * sectors + j && 0 <= k < 6 ==> #[trigger] indices@[6 * q + k] as int
                        == sphere_quad(q, sectors as int)[k],
            decreases ns - j,
        {
            assert(i * stride + j + stride + 1 <= (rings + 1) * (sectors + 1)) by (nonlinear_arith)
                requires
                    i < rings,
                    j < sectors,
                    stride == sectors + 1,
            ;
            let a = i * stride + j;
            let b = a + stride;
            let ghost before = indices@;
            let ghost q0 = i * sectors + j;
            indices.push(a);
            indices.push(a + 1);
            indices.push(b);
            indices.push(a + 1);
            indices.push(b + 1);
            indices.push(b);
            proof {
                lemma_fundamental_div_mod_converse(q0, sectors as int, i as int, j as int);
                assert forall|q: int, k: int|
                    0 <= q < i * sectors + j + 1 && 0 <= k < 6 implies #[trigger] indices@[6 * q + k] as int
                        == sphere_quad(q, sectors as int)[k] by {
                    if q < q0 {
                        assert(6 * q + k < 6 * q0) by (nonlinear_arith)
                            requires
                                q < q0,
                                k < 6,
                        ;
                        assert(indices@[6 * q + k] == before[6 * q + k]);
                    } else {
                        assert(q == q0);
                    }
                }
            }
            j = j + 1;
        }
        assert((i + 1) * sectors == i * sectors + sectors) by (nonlinear_arith);
        i = i + 1;
    }
    assert(6 * (rings * sectors) == 6 * rings * sectors) by (nonlinear_arith);
    indices
}

/// The two triangles joining angular segment `s` of ring `k` to the same segment of ring `k+1`,
/// for rings of `seg` vertices each (vertex `(ring, s)` is `ring·seg + s`; the ring closes on itself).
pub open spec fn strip_quad(q: int, seg: int) -> Seq<int> {
    let k = q / seg;
    let s = q % seg;
    let s1 = (s + 1) % seg;
    let i0 = k * seg + s;
    let i1 = k * seg + s1;
    let o0 = (k + 1) * seg + s;
    let o1 = (k + 1) * seg + s1;
    seq![i0, o0, o1, i0, o1, i1]
}

/// The index list of concentric closed rings of `seg` vertices each (`ring_count` rings, ring `k`
/// at vertices `k·seg ..`): quad strips join each ring to the next, quads enumerated ring by ring.
pub fn ring_strip_indices(ring_count: usize, seg: usize) -> (indices: Vec<u32>)
    requires
        ring_count >= 1,
        ring_count * seg <= u32::MAX,
    ensures
        indices@.len() == 6 * (ring_count - 1) * seg,
        forall|q: int, k: int|
            0 <= q < (ring_count - 1) * seg && 0 <= k < 6 ==> #[trigger] indices@[6 * q + k] as int
                == strip_quad(q, seg as int)[k],
{
    let mut indices: Vec<u32> = Vec::new();
    let mut k: usize = 0;
    while k < ring_count - 1
        invariant
            ring_count >= 1,
            ring_count * seg <= u32::MAX,
            k <= ring_count - 1,
            indices@.len() == 6 * (k * seg),
            forall|q: int, m: int|
                0 <= q < k * seg && 0 <= m < 6 ==> #[trigger] indices@[6 * q + m] as int == strip_quad(q, seg as int)[m],
        decreases ring_count - 1 - k,
    {
        assert((k + 2) * seg <= ring_count * seg) by (nonlinear_arith)
            requires
                k + 2 <= ring_count,
        ;
        assert(k * seg <= (k + 1) * seg <= (k + 2) * seg) by (nonlinear_arith);
        assert((k + 1) * seg == k * seg + seg && (k + 2) * seg == (k + 1) * seg + seg) by (nonlinear_arith);
        let base_in = k * seg;
        let base_out = (k + 1) * seg;
        let mut s: usize = 0;
        while s < seg
            invariant
                ring_count >= 1,
                ring_count * seg <= u32::MAX,
                k < ring_count - 1,
                (k + 2) * seg <= ring_count * seg,
                base_in == k * seg,
                base_out == (k + 1) * seg,
                base_out == base_in + seg,
                base_out + seg <= ring_count * seg,
                s <= seg,
                indices@.len() == 6 * (k * seg + s),
                forall|q: int, m: int|
                    0 <= q < k * seg + s && 0 <= m < 6 ==> #[trigger] indices@[6 * q + m] as int
                        == strip_quad(q, seg as int)[m],
            decreases seg - s,
        {
            let s1 = (s + 1) % seg;
            assert(base_out + seg == (k + 2) * seg) by (nonlinear_arith)
                requires
                    base_out == (k + 1) * seg,
            ;
            let i0 = (base_in + s) as u32;
            let i1 = (base_in + s1) as u32;
            let o0 = (base_out + s) as u32;
            let o1 = (base_out + s1) as u32;
            let ghost before = indices@;
            let ghost q0 = k * seg + s;
            indices.push(i0);
            indices.push(o0);
            indices.push(o1);
            indices.push(i0);
            indices.push(o1);
            indices.push(i1);
            proof {
                lemma_fundamental_div_mod_converse(q0, seg as int, k as int, s as int);
                assert forall|q: int, m: int|
                    0 <= q < k * seg + s + 1 && 0 <= m < 6 implies #[trigger] indices@[6 * q + m] as int
                        == strip_quad(q, seg as int)[m] by {
                    if q < q0 {
                        assert(6 * q + m < 6 * q0) by (nonlinear_arith)
                            requires
                                q < q0,
                                m < 6,
                        ;
                        assert(indices@[6 * q + m] == before[6 * q + m]);
                    } else {
                        assert(q == q0);
                    }
                }
            }
            s = s + 1;
        }
        assert((k + 1) * seg == k * seg + seg) by (nonlinear_arith);
        k = k + 1;
    }
    assert(6 * ((ring_count - 1) * seg) == 6 * (ring_count - 1) * seg) by (nonlinear_arith);
    indices
}


/// A face quad at vertex `base` draws only its own four corners `base ..= base + 3`, and draws
/// every one of them.
pub proof fn lemma_face_quad_spans_its_corners(base: int)
    ensures
        face_quad(base).len() == 6,
        forall|k: int| 0 <= k < 6 ==> base <= #[trigger] face_quad(base)[k] <= base + 3,
        forall|j: int| 0 <= j < 4 ==> #[trigger] face_quad(base).contains(base + j),
{
    assert(face_quad(base)[0] == base + 0);
    assert(face_quad(base)[1] == base + 1);
    assert(face_quad(base)[2] == base + 2);
    assert(face_quad(base)[5] == base + 3);
}

/// The cube's index list names only its 24 vertices and names every one of them: no face is drawn
/// twice and no corner is left out, so the cube is closed.
pub proof fn lemma_cube_covers_every_vertex(indices: Seq<u32>)
    requires
        indices.len() == 36,
        forall|f: int, k: int|
            0 <= f < 6 && 0 <= k < 6 ==> #[trigger] indices[6 * f + k] as int == face_quad(4 * f)[k],
    ensures
        forall|k: int| 0 <= k < 36 ==> #[trigger] indices[k] < 24,
        forall|v: int| 0 <= v < 24 ==> #[trigger] indices.contains(v as u32),
{
    assert forall|k: int| 0 <= k < 36 implies #[trigger] indices[k] < 24 by {
        let f = k / 6;
        let r = k % 6;
        lemma_fundamental_div_mod_converse(k, 6, f, r);
        assert(k == 6 * f + r);
        lemma_face_quad_spans_its_corners(4 * f);
        assert(indices[6 * f + r] as int == face_quad(4 * f)[r]);
    }
    assert forall|v: int| 0 <= v < 24 implies #[trigger] indices.contains(v as u32) by {
        let f = v / 4;
        let j = v % 4;
        lemma_fundamental_div_mod_converse(v, 4, f, j);
        assert(v == 4 * f + j);
        lemma_face_quad_spans_its_corners(4 * f);
        assert(face_quad(4 * f).contains(4 * f + j));
        let k = choose|k: int| 0 <= k < face_quad(4 * f).len() && #[trigger] face_quad(4 * f)[k] == 4 * f + j;
        assert(indices[6 * f + k] as int == v);
        assert(0 <= 6 * f + k < 36);
    }
}

/// Every cube index names one of its 24 corner vertices.
pub proof fn lemma_cube_indices_in_range(f: int, k: int)
    requires
        0 <= f < 6,
        0 <= k < 6,
    ensures
        0 <= face_quad(4 * f)[k] < 24,
{
}

/// Every UV-sphere index names one of the `(rings+1)·(sectors+1)` vertices, and each triangle uses
/// three different vertices.
pub proof fn lemma_sphere_indices_valid(rings: int, sectors: int, q: int)
    requires
        rings >= 0,
        sectors >= 1,
        0 <= q < rings * sectors,
    ensures
        forall|k: int| 0 <= k < 6 ==> 0 <= #[trigger] sphere_quad(q, sectors)[k] < (rings + 1) * (sectors + 1),
        sphere_quad(q, sectors)[0] != sphere_quad(q, sectors)[1],
        sphere_quad(q, sectors)[1] != sphere_quad(q, sectors)[2],
        sphere_quad(q, sectors)[0] != sphere_quad(q, sectors)[2],
        sphere_quad(q, sectors)[3] != sphere_quad(q, sectors)[4],
        sphere_quad(q, sectors)[4] != sphere_quad(q, sectors)[5],
        sphere_quad(q, sectors)[3] != sphere_quad(q, sectors)[5],
{
    let i = q / sectors;
    let j = q % sectors;
    vstd::arithmetic::div_mod::lemma_fundamental_div_mod(q, sectors);
    assert(0 <= j < sectors);
    assert(0 <= i < rings) by (nonlinear_arith)
        requires
            q == sectors * i + j,
            0 <= q < rings * sectors,
            0 <= j < sectors,
            sectors >= 1,
    ;
    assert(0 <= i * (sectors + 1) + j + sectors + 2 < (rings + 1) * (sectors + 1)) by (nonlinear_arith)
        requires
            0 <= i < rings,
            0 <= j < sectors,
    ;
}

/// Every ring-strip index names one of the `ring_count·seg` ring vertices, and with at least
/// two segments per ring each triangle uses three different vertices.
pub proof fn lemma_strip_indices_valid(ring_count: int, seg: int, q: int)
    requires
        ring_count >= 1,
        seg >= 1,
        0 <= q < (ring_count - 1) * seg,
    ensures
        forall|k: int| 0 <= k < 6 ==> 0 <= #[trigger] strip_quad(q, seg)[k] < ring_count * seg,
        seg >= 2 ==> strip_quad(q, seg)[0] != strip_quad(q, seg)[1] && strip_quad(q, seg)[1]
            != strip_quad(q, seg)[2] && strip_quad(q, seg)[0] != strip_quad(q, seg)[2]
            && strip_quad(q, seg)[4] != strip_quad(q, seg)[5] && strip_quad(q, seg)[3]
            != strip_quad(q, seg)[5],
{
    let k = q / seg;
    let s = q % seg;
    vstd::arithmetic::div_mod::lemma_fundamental_div_mod(q, seg);
    let s1 = (s + 1) % seg;
    vstd::arithmetic::div_mod::lemma_fundamental_div_mod(s + 1, seg);
    assert(0 <= s1 < seg);
    assert(0 <= k < ring_count - 1) by (nonlinear_arith)
        requires
            q == seg * k + s,
            0 <= q < (ring_count - 1) * seg,
            0 <= s < seg,
            seg >= 1,
    ;
    assert(0 <= k * seg && (k + 1) * seg + seg <= ring_count * seg && (k + 1) * seg == k * seg + seg)
        by (nonlinear_arith)
        requires
            0 <= k < ring_count - 1,
            seg >= 1,
    ;
    if seg >= 2 {
        if s + 1 < seg {
            vstd::arithmetic::div_mod::lemma_small_mod((s + 1) as nat, seg as nat);
        } else {
            vstd::arithmetic::div_mod::lemma_mod_self_0(seg);
        }
    }
}

} // verus!
