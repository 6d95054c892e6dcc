//! Sorting quads, first-fit packing of their footprints into a square
//! power-of-two texture atlas, and assignment of the final texture
//! coordinates.

use vstd::prelude::*;
use vstd::seq_lib::*;
use crate::geometry::Quad;

verus! {

/// One placed rectangle of the atlas: top-left corner and extent, in texels.
#[derive(Clone, Copy, PartialEq, Eq, Structural, Debug)]
pub struct TexQuad {
    pub x: usize,
    pub y: usize,
    pub width: usize,
    pub height: usize,
}

/// `a` sorts strictly before `b`: taller footprint first, then wider.
pub open spec fn sorts_before(a: Quad, b: Quad) -> bool {
    a.tex_size.1 > b.tex_size.1 || (a.tex_size.1 == b.tex_size.1 && a.tex_size.0 > b.tex_size.0)
}

/// The subsequence of quads whose footprint is exactly `(w, h)`.
pub open spec fn footprint_sub(s: Seq<Quad>, w: usize, h: usize) -> Seq<Quad> {
    s.filter(|q: Quad| q.tex_size == (w, h))
}

/// Sorts quads by descending footprint height, ties by descending width,
/// keeping the relative order of quads with equal footprints: for every
/// footprint, the subsequence with that footprint is unchanged.
pub fn sort_quads(quads: &mut Vec<Quad>)
    ensures
        final(quads)@.len() == old(quads)@.len(),
        final(quads)@.to_multiset() == old(quads)@.to_multiset(),
        forall|a: int, b: int|
            0 <= a < b < final(quads)@.len() ==> !#[trigger] sorts_before(
                final(quads)@[b],
                final(quads)@[a],
            ),
        forall|w: usize, h: usize|
            #[trigger] footprint_sub(final(quads)@, w, h) == footprint_sub(old(quads)@, w, h),
{
    let n = quads.len();
    let mut out: Vec<Quad> = Vec::new();
    let mut t: usize = 0;
    proof {
        assert(out@ =~= old(quads)@.take(0));
        assert forall|w: usize, h: usize|
            #[trigger] footprint_sub(out@, w, h) == footprint_sub(old(quads)@.take(0), w, h) by {
            assert(out@ =~= old(quads)@.take(0));
        }
    }
    while t < n
        invariant
            n == old(quads)@.len(),
            quads@ == old(quads)@,
            t <= n,
            out@.len() == t,
            out@.to_multiset() == old(quads)@.take(t as int).to_multiset(),
            forall|a: int, b: int|
                0 <= a < b < out@.len() ==> !#[trigger] sorts_before(out@[b], out@[a]),
            forall|w: usize, h: usize|
                #[trigger] footprint_sub(out@, w, h) == footprint_sub(
                    old(quads)@.take(t as int),
                    w,
                    h,
                ),
        decreases n - t,
    {
        let q = quads[t];
        // The first position whose entry sorts strictly after `q`.
        let mut p: usize = 0;
        while p < out.len() && !(q.tex_size.1 > out[p].tex_size.1 || (q.tex_size.1
            == out[p].tex_size.1 && q.tex_size.0 > out[p].tex_size.0))
            invariant
                p <= out@.len(),
                forall|a: int| 0 <= a < p ==> !sorts_before(q, #[trigger] out@[a]),
            decreases out@.len() - p,
        {
            p += 1;
        }
        let ghost old_out = out@;
        out.insert(p, q);
        proof {
            let pre = old_out.subrange(0, p as int);
            let post = old_out.subrange(p as int, old_out.len() as int);
            assert(old_out =~= pre + post);
            assert(out@ =~= pre + (seq![q] + post));
            // Order: entries after the insertion point sort strictly after `q`.
            assert forall|b: int| 0 <= b < post.len() implies sorts_before(q, #[trigger] post[b]) by {
                assert(post[b] == old_out[p + b]);
                if p < old_out.len() {
                    assert(sorts_before(q, old_out[p as int]));
                    assert(!sorts_before(old_out[p + b], old_out[p as int]));
                }
            }
            // Permutation.
            lemma_multiset_commutative(pre, post);
            lemma_multiset_commutative(pre, seq![q] + post);
            lemma_multiset_commutative(seq![q], post);
            assert(out@.to_multiset() =~= old_out.to_multiset().add(seq![q].to_multiset()));
            assert(old(quads)@.take(t + 1) =~= old(quads)@.take(t as int) + seq![q]);
            lemma_multiset_commutative(old(quads)@.take(t as int), seq![q]);
            assert(out@.to_multiset() =~= old(quads)@.take(t + 1).to_multiset());
            // Stability: per-footprint subsequences are extended by `q` alone.
            assert forall|w: usize, h: usize|
                #[trigger] footprint_sub(out@, w, h) == footprint_sub(
                    old(quads)@.take(t + 1),
                    w,
                    h,
                ) by {
                let c = |q2: Quad| q2.tex_size == (w, h);
                assert(footprint_sub(old_out, w, h) == footprint_sub(
                    old(quads)@.take(t as int),
                    w,
                    h,
                ));
                assert(footprint_sub(old_out, w, h) == old_out.filter(c));
                assert(footprint_sub(old(quads)@.take(t as int), w, h) == old(quads)@.take(
                    t as int,
                ).filter(c));
                assert(footprint_sub(out@, w, h) == out@.filter(c));
                assert(footprint_sub(old(quads)@.take(t + 1), w, h) == old(quads)@.take(
                    t + 1,
                ).filter(c));
                Seq::filter_distributes_over_add(pre, post, c);
                Seq::filter_distributes_over_add(pre, seq![q] + post, c);
                Seq::filter_distributes_over_add(seq![q], post, c);
                Seq::filter_distributes_over_add(old(quads)@.take(t as int), seq![q], c);
                assert(seq![q].drop_last() =~= Seq::<Quad>::empty());
                reveal_with_fuel(Seq::filter, 2);
                if c(q) {
                    assert(seq![q].filter(c) =~= seq![q]);
                    assert forall|b: int| 0 <= b < post.len() implies !c(#[trigger] post[b]) by {
                        assert(sorts_before(q, post[b]));
                    }
                    lemma_filter_none(post, c);
                    assert(out@.filter(c) =~= pre.filter(c) + seq![q]);
                    assert(old_out.filter(c) =~= pre.filter(c));
                } else {
                    assert(seq![q].filter(c) =~= Seq::<Quad>::empty());
                    assert(out@.filter(c) =~= pre.filter(c) + post.filter(c));
                    assert(old_out.filter(c) =~= pre.filter(c) + post.filter(c));
                }
            }
        }
        t += 1;
    }
    proof {
        assert(old(quads)@.take(n as int) =~= old(quads)@);
    }
    *quads = out;
}

/// A sequence none of whose entries satisfies the predicate filters to the
/// empty sequence.
proof fn lemma_filter_none(s: Seq<Quad>, c: spec_fn(Quad) -> bool)
    requires
        forall|b: int| 0 <= b < s.len() ==> !c(#[trigger] s[b]),
    ensures
        s.filter(c) == Seq::<Quad>::empty(),
    decreases s.len(),
{
    reveal_with_fuel(Seq::filter, 2);
    if s.len() == 0 {
        assert(s.filter(c) =~= Seq::<Quad>::empty());
    } else {
        assert(!c(s.last()));
        lemma_filter_none(s.drop_last(), c);
        assert(s.filter(c) =~= Seq::<Quad>::empty());
    }
}

/// Is `(x, y)` a texel of the placed rectangle?
pub open spec fn in_rect(t: TexQuad, x: int, y: int) -> bool {
    t.x <= x < t.x + t.width && t.y <= y < t.y + t.height
}

/// Is `(x, y)` a texel of some placed rectangle of the list?
pub open spec fn covered_by(ts: Seq<TexQuad>, x: int, y: int) -> bool {
    exists|k: int| 0 <= k < ts.len() && in_rect(#[trigger] ts[k], x, y)
}

/// A `w` by `h` footprint fits at `(x, y)`: inside the square of side `size`
/// and overlapping no already placed rectangle.
pub open spec fn fits(ts: Seq<TexQuad>, size: int, x: int, y: int, w: int, h: int) -> bool {
    &&& 0 <= x && 0 <= y
    &&& x + w <= size && y + h <= size
    &&& forall|u: int, v: int| x <= u < x + w && y <= v < y + h ==> !#[trigger] covered_by(ts, u, v)
}

/// `(x, y)` is the first origin in row-major order (outer `y`, inner `x`)
/// where the footprint fits.
pub open spec fn first_fit_at(ts: Seq<TexQuad>, size: int, w: int, h: int, x: int, y: int) -> bool {
    &&& 0 <= x < size && 0 <= y < size
    &&& fits(ts, size, x, y, w, h)
    &&& forall|x2: int, y2: int|
        0 <= x2 < size && 0 <= y2 < size && (y2 < y || (y2 == y && x2 < x)) ==> !#[trigger] fits(
            ts,
            size,
            x2,
            y2,
            w,
            h,
        )
}

/// The placements are the sequential first-fit placements of the quads'
/// footprints, in order.
pub open spec fn is_first_fit(qs: Seq<Quad>, size: int, ts: Seq<TexQuad>) -> bool {
    &&& ts.len() == qs.len()
    &&& forall|k: int|
        0 <= k < qs.len() ==> ((#[trigger] ts[k]).width == qs[k].tex_size.0 && ts[k].height
            == qs[k].tex_size.1 && first_fit_at(
            ts.take(k),
            size,
            qs[k].tex_size.0 as int,
            qs[k].tex_size.1 as int,
            ts[k].x as int,
            ts[k].y as int,
        ))
}

/// First-fit cannot place some quad anywhere at this atlas size.
pub open spec fn pack_fails(qs: Seq<Quad>, size: int) -> bool {
    exists|k: int, ts: Seq<TexQuad>|
        0 <= k < qs.len() && #[trigger] is_first_fit(qs.take(k), size, ts) && (forall|
            x: int,
            y: int,
        |
            0 <= x < size && 0 <= y < size ==> !#[trigger] fits(
                ts,
                size,
                x,
                y,
                qs[k].tex_size.0 as int,
                qs[k].tex_size.1 as int,
            ))
}

/// Checks whether the quad's footprint fits at `(x, y)`: inside the square
/// and on unmarked texels only.
fn can_place_quad(
    texture: &Vec<u8>,
    size: usize,
    x: usize,
    y: usize,
    quad: &Quad,
    ts: Ghost<Seq<TexQuad>>,
) -> (r: bool)
    requires
        1 <= size <= 0x4000,
        texture@.len() == size * size,
        x < size,
        y < size,
        quad.tex_size.0 <= 0x4000,
        quad.tex_size.1 <= 0x4000,
        forall|u: int, v: int|
            0 <= u < size && 0 <= v < size ==> ((#[trigger] texture@[v * size + u]) != 0
                <==> covered_by(ts@, u, v)),
    ensures
        r == fits(ts@, size as int, x as int, y as int, quad.tex_size.0 as int, quad.tex_size.1 as int),
{
    let w = quad.tex_size.0;
    let h = quad.tex_size.1;
    if x + w > size || y + h > size {
        return false;
    }
    let mut j: usize = 0;
    while j < h
        invariant
            1 <= size <= 0x4000,
            texture@.len() == size * size,
            w == quad.tex_size.0,
            h == quad.tex_size.1,
            x + w <= size,
            y + h <= size,
            j <= h,
            forall|u: int, v: int|
                0 <= u < size && 0 <= v < size ==> ((#[trigger] texture@[v * size + u]) != 0
                    <==> covered_by(ts@, u, v)),
            forall|u: int, v: int|
                x <= u < x + w && y <= v < y + j ==> !#[trigger] covered_by(ts@, u, v),
        decreases h - j,
    {
        let mut i: usize = 0;
        while i < w
            invariant
                1 <= size <= 0x4000,
                texture@.len() == size * size,
                w == quad.tex_size.0,
                h == quad.tex_size.1,
                x + w <= size,
                y + h <= size,
                j < h,
                i <= w,
                forall|u: int, v: int|
                    0 <= u < size && 0 <= v < size ==> ((#[trigger] texture@[v * size + u]) != 0
                        <==> covered_by(ts@, u, v)),
                forall|u: int, v: int|
                    x <= u < x + w && y <= v < y + j ==> !#[trigger] covered_by(ts@, u, v),
                forall|u: int| x <= u < x + i ==> !#[trigger] covered_by(ts@, u, (y + j) as int),
            decreases w - i,
        {
            proof {
                lemma_texel_index(size as int, (x + i) as int, (y + j) as int);
                assert(((y + j) * size + x + i) as int == ((y + j) as int) * (size as int) + ((x
                    + i) as int));
            }
            if texture[(y + j) * size + x + i] != 0 {
                proof {
                    assert(covered_by(ts@, (x + i) as int, (y + j) as int));
                    assert(!fits(
                        ts@,
                        size as int,
                        x as int,
                        y as int,
                        quad.tex_size.0 as int,
                        quad.tex_size.1 as int,
                    ));
                }
                return false;
            }
            proof {
                assert(!covered_by(ts@, (x + i) as int, (y + j) as int));
            }
            i += 1;
        }
        j += 1;
    }
    true
}

/// A texel coordinate inside the square names a valid index of the flat
/// texture array.
proof fn lemma_texel_index(size: int, u: int, v: int)
    requires
        0 <= u < size,
        0 <= v < size,
        size <= 0x4000,
    ensures
        0 <= v * size + u < size * size,
        v * size + u < 0x1000_0000,
        size * size <= 0x1000_0000,
{
    assert(0 <= v * size + u < size * size && size * size <= 0x1000_0000) by (nonlinear_arith)
        requires
            0 <= u < size,
            0 <= v < size,
            size <= 0x4000,
    ;
}

/// Distinct texels name distinct indices of the flat texture array.
proof fn lemma_texel_index_injective(size: int, u: int, v: int, u2: int, v2: int)
    requires
        0 <= u < size,
        0 <= v < size,
        0 <= u2 < size,
        0 <= v2 < size,
        v * size + u == v2 * size + u2,
    ensures
        u == u2,
        v == v2,
{
    assert(u == u2 && v == v2) by (nonlinear_arith)
        requires
            0 <= u < size,
            0 <= v < size,
            0 <= u2 < size,
            0 <= v2 < size,
            v * size + u == v2 * size + u2,
    ;
}

/// Marks the quad's footprint at `(x, y)` as occupied.
fn place_quad(
    texture: &mut Vec<u8>,
    size: usize,
    x: usize,
    y: usize,
    quad: &Quad,
    ts: Ghost<Seq<TexQuad>>,
)
    requires
        1 <= size <= 0x4000,
        old(texture)@.len() == size * size,
        x + quad.tex_size.0 <= size,
        y + quad.tex_size.1 <= size,
        forall|u: int, v: int|
            0 <= u < size && 0 <= v < size ==> ((#[trigger] old(texture)@[v * size + u]) != 0
                <==> covered_by(ts@, u, v)),
    ensures
        final(texture)@.len() == size * size,
        forall|u: int, v: int|
            0 <= u < size && 0 <= v < size ==> ((#[trigger] final(texture)@[v * size + u]) != 0
                <==> covered_by(
                ts@.push(
                    TexQuad { x, y, width: quad.tex_size.0, height: quad.tex_size.1 },
                ),
                u,
                v,
            )),
{
    let w = quad.tex_size.0;
    let h = quad.tex_size.1;
    let ghost newt = TexQuad { x, y, width: quad.tex_size.0, height: quad.tex_size.1 };
    let mut j: usize = 0;
    while j < h
        invariant
            1 <= size <= 0x4000,
            texture@.len() == size * size,
            w == quad.tex_size.0,
            h == quad.tex_size.1,
            x + w <= size,
            y + h <= size,
            j <= h,
            newt == (TexQuad { x, y, width: w, height: h }),
            forall|u: int, v: int|
                0 <= u < size && 0 <= v < size && !(x <= u < x + w && y <= v < y + j) ==> ((
                #[trigger] texture@[v * size + u]) != 0 <==> covered_by(ts@, u, v)),
            forall|u: int, v: int|
                x <= u < x + w && y <= v < y + j ==> (#[trigger] texture@[v * size + u]) != 0,
        decreases h - j,
    {
        let mut i: usize = 0;
        while i < w
            invariant
                1 <= size <= 0x4000,
                texture@.len() == size * size,
                w == quad.tex_size.0,
                h == quad.tex_size.1,
                x + w <= size,
                y + h <= size,
                j < h,
                i <= w,
                newt == (TexQuad { x, y, width: w, height: h }),
                forall|u: int, v: int|
                    0 <= u < size && 0 <= v < size && !(x <= u < x + w && y <= v < y + j) && !(x
                        <= u < x + i && v == y + j) ==> ((#[trigger] texture@[v * size + u]) != 0
                        <==> covered_by(ts@, u, v)),
                forall|u: int, v: int|
                    x <= u < x + w && y <= v < y + j ==> (#[trigger] texture@[v * size + u]) != 0,
                forall|u: int|
                    x <= u < x + i ==> (#[trigger] texture@[((y + j) * size + u) as int]) != 0,
            decreases w - i,
        {
            proof {
                lemma_texel_index(size as int, (x + i) as int, (y + j) as int);
                assert(((y + j) * size + x + i) as int == ((y + j) as int) * (size as int) + ((x
                    + i) as int));
            }
            let idx = (y + j) * size + x + i;
            let ghost tex0 = texture@;
            texture[idx] = 1;
            proof {
                assert(texture@ == tex0.update(idx as int, 1u8));
                assert(texture@[((y + j) as int) * (size as int) + ((x + i) as int)] == 1);
                assert forall|u: int, v: int|
                    0 <= u < size && 0 <= v < size && !(u == x + i && v == y + j) implies (
                #[trigger] texture@[v * size + u]) == tex0[v * size + u] by {
                    lemma_texel_index(size as int, u, v);
                    if v * size + u == idx {
                        lemma_texel_index_injective(
                            size as int,
                            u,
                            v,
                            (x + i) as int,
                            (y + j) as int,
                        );
                    }
                }
            }
            i += 1;
        }
        j += 1;
    }
    proof {
        assert forall|u: int, v: int| 0 <= u < size && 0 <= v < size implies ((
        #[trigger] texture@[v * size + u]) != 0 <==> covered_by(ts@.push(newt), u, v)) by {
            lemma_covered_push(ts@, newt, u, v);
        }
    }
}

/// Pushing a rectangle covers a texel exactly when the list already did or
/// the new rectangle does.
proof fn lemma_covered_push(ts: Seq<TexQuad>, t: TexQuad, u: int, v: int)
    ensures
        covered_by(ts.push(t), u, v) <==> (covered_by(ts, u, v) || in_rect(t, u, v)),
{
    let ts2 = ts.push(t);
    if covered_by(ts2, u, v) {
        let k = choose|k: int| 0 <= k < ts2.len() && in_rect(ts2[k], u, v);
        if k < ts.len() {
            assert(ts2[k] == ts[k]);
            assert(in_rect(ts[k], u, v));
        } else {
            assert(ts2[k] == t);
        }
    }
    if covered_by(ts, u, v) {
        let k = choose|k: int| 0 <= k < ts.len() && in_rect(ts[k], u, v);
        assert(in_rect(ts2[k], u, v));
    }
    if in_rect(t, u, v) {
        assert(in_rect(ts2[ts.len() as int], u, v));
    }
}

/// Tries to place every quad's footprint by first fit, scanning candidate
/// origins in row-major order, at atlas size `size`. Returns the placements,
/// or nothing if some quad fits nowhere.
#[verifier::rlimit(100)]
pub fn try_pack_quad_texture(quads: &Vec<Quad>, size: usize) -> (r: Option<Vec<TexQuad>>)
    requires
        1 <= size <= 0x4000,
        forall|k: int|
            0 <= k < quads@.len() ==> (#[trigger] quads@[k]).tex_size.0 <= 0x4000
                && quads@[k].tex_size.1 <= 0x4000,
    ensures
        r matches Some(ts) ==> is_first_fit(quads@, size as int, ts@),
        r is None ==> pack_fails(quads@, size as int),
{
    let mut tex_quads: Vec<TexQuad> = Vec::new();
    let mut texture: Vec<u8> = Vec::new();
    proof {
        assert(size * size <= 0x1000_0000) by (nonlinear_arith)
            requires
                1 <= size <= 0x4000,
        ;
    }
    let total = size * size;
    while texture.len() < total
        invariant
            total == size * size,
            texture@.len() <= total,
            forall|e: int| 0 <= e < texture@.len() ==> (#[trigger] texture@[e]) == 0,
        decreases total - texture@.len(),
    {
        texture.push(0);
    }
    proof {
        assert forall|u: int, v: int| 0 <= u < size && 0 <= v < size implies ((
        #[trigger] texture@[v * size + u]) != 0 <==> covered_by(tex_quads@, u, v)) by {
            lemma_texel_index(size as int, u, v);
            if covered_by(tex_quads@, u, v) {
                let k = choose|k: int| 0 <= k < tex_quads@.len() && in_rect(tex_quads@[k], u, v);
                assert(false);
            }
        }
        assert(quads@.take(0) =~= Seq::<Quad>::empty());
    }
    let n = quads.len();
    let mut qi: usize = 0;
    while qi < n
        invariant
            1 <= size <= 0x4000,
            n == quads@.len(),
            qi <= n,
            forall|k: int|
                0 <= k < quads@.len() ==> (#[trigger] quads@[k]).tex_size.0 <= 0x4000
                    && quads@[k].tex_size.1 <= 0x4000,
            texture@.len() == size * size,
            tex_quads@.len() == qi,
            forall|u: int, v: int|
                0 <= u < size && 0 <= v < size ==> ((#[trigger] texture@[v * size + u]) != 0
                    <==> covered_by(tex_quads@, u, v)),
            is_first_fit(quads@.take(qi as int), size as int, tex_quads@),
        decreases n - qi,
    {
        let quad = quads[qi];
        let w = quad.tex_size.0;
        let h = quad.tex_size.1;
        let mut found = false;
        let mut px: usize = 0;
        let mut py: usize = 0;
        let mut y: usize = 0;
        while !found && y < size
            invariant
                1 <= size <= 0x4000,
                texture@.len() == size * size,
                w == quad.tex_size.0,
                h == quad.tex_size.1,
                w <= 0x4000,
                h <= 0x4000,
                y <= size,
                forall|u: int, v: int|
                    0 <= u < size && 0 <= v < size ==> ((#[trigger] texture@[v * size + u]) != 0
                        <==> covered_by(tex_quads@, u, v)),
                !found ==> forall|x2: int, y2: int|
                    0 <= x2 < size && 0 <= y2 < y ==> !#[trigger] fits(
                        tex_quads@,
                        size as int,
                        x2,
                        y2,
                        w as int,
                        h as int,
                    ),
                found ==> (px < size && py < size && fits(
                    tex_quads@,
                    size as int,
                    px as int,
                    py as int,
                    w as int,
                    h as int,
                ) && first_fit_at(tex_quads@, size as int, w as int, h as int, px as int, py as int)),
            decreases (if found {
                0int
            } else {
                1int
            }), size - y,
        {
            let mut x: usize = 0;
            while !found && x < size
                invariant
                    1 <= size <= 0x4000,
                    texture@.len() == size * size,
                    w == quad.tex_size.0,
                    h == quad.tex_size.1,
                    w <= 0x4000,
                    h <= 0x4000,
                    y < size,
                    x <= size,
                    forall|u: int, v: int|
                        0 <= u < size && 0 <= v < size ==> ((#[trigger] texture@[v * size + u]) != 0
                            <==> covered_by(tex_quads@, u, v)),
                    !found ==> forall|x2: int, y2: int|
                        0 <= x2 < size && 0 <= y2 < y ==> !#[trigger] fits(
                            tex_quads@,
                            size as int,
                            x2,
                            y2,
                            w as int,
                            h as int,
                        ),
                    !found ==> forall|x2: int|
                        0 <= x2 < x ==> !#[trigger] fits(
                            tex_quads@,
                            size as int,
                            x2,
                            y as int,
                            w as int,
                            h as int,
                        ),
                    found ==> (px < size && py < size && fits(
                        tex_quads@,
                        size as int,
                        px as int,
                        py as int,
                        w as int,
                        h as int,
                    ) && first_fit_at(
                        tex_quads@,
                        size as int,
                        w as int,
                        h as int,
                        px as int,
                        py as int,
                    )),
                decreases (if found {
                    0int
                } else {
                    1int
                }), size - x,
            {
                if can_place_quad(&texture, size, x, y, &quad, Ghost(tex_quads@)) {
                    found = true;
                    px = x;
                    py = y;
                } else {
                    x += 1;
                }
            }
            if !found {
                y += 1;
            }
        }
        if !found {
            proof {
                assert forall|x2: int, y2: int| 0 <= x2 < size && 0 <= y2 < size implies !fits(
                    tex_quads@,
                    size as int,
                    x2,
                    y2,
                    w as int,
                    h as int,
                ) by {
                    assert(!fits(tex_quads@, size as int, x2, y2, w as int, h as int));
                }
                assert(is_first_fit(quads@.take(qi as int), size as int, tex_quads@) && (forall|
                    x2: int,
                    y2: int,
                |
                    0 <= x2 < size && 0 <= y2 < size ==> !#[trigger] fits(
                        tex_quads@,
                        size as int,
                        x2,
                        y2,
                        quads@[qi as int].tex_size.0 as int,
                        quads@[qi as int].tex_size.1 as int,
                    )));
                assert(pack_fails(quads@, size as int));
            }
            return None;
        }
        place_quad(&mut texture, size, px, py, &quad, Ghost(tex_quads@));
        let ghost old_ts = tex_quads@;
        tex_quads.push(TexQuad { x: px, y: py, width: w, height: h });
        proof {
            assert(tex_quads@ == old_ts.push(
                TexQuad { x: px, y: py, width: w, height: h },
            ));
            assert forall|k: int| 0 <= k < qi + 1 implies ((#[trigger] tex_quads@[k]).width
                == quads@.take(qi + 1)[k].tex_size.0 && tex_quads@[k].height == quads@.take(
                qi + 1,
            )[k].tex_size.1 && first_fit_at(
                tex_quads@.take(k),
                size as int,
                quads@.take(qi + 1)[k].tex_size.0 as int,
                quads@.take(qi + 1)[k].tex_size.1 as int,
                tex_quads@[k].x as int,
                tex_quads@[k].y as int,
            )) by {
                assert(quads@.take(qi + 1)[k] == quads@[k]);
                if k < qi {
                    assert(tex_quads@[k] == old_ts[k]);
                    assert(tex_quads@.take(k) =~= old_ts.take(k));
                    assert(quads@.take(qi as int)[k] == quads@[k]);
                } else {
                    assert(tex_quads@.take(k) =~= old_ts);
                }
            }
            assert(is_first_fit(quads@.take(qi + 1), size as int, tex_quads@));
        }
        qi += 1;
    }
    proof {
        assert(quads@.take(n as int) =~= quads@);
    }
    Some(tex_quads)
}

/// The total height of all footprints: the row budget that always admits a
/// first-fit placement.
pub open spec fn sum_heights(qs: Seq<Quad>) -> int
    decreases qs.len(),
{
    if qs.len() == 0 {
        0
    } else {
        sum_heights(qs.drop_last()) + qs.last().tex_size.1
    }
}

proof fn lemma_sum_take_succ(qs: Seq<Quad>, j: int)
    requires
        0 <= j < qs.len(),
    ensures
        sum_heights(qs.take(j + 1)) == sum_heights(qs.take(j)) + qs[j].tex_size.1,
{
    assert(qs.take(j + 1).drop_last() =~= qs.take(j));
    assert(qs.take(j + 1).last() == qs[j]);
}

proof fn lemma_sum_mono(qs: Seq<Quad>, i: int, j: int)
    requires
        0 <= i <= j <= qs.len(),
    ensures
        sum_heights(qs.take(i)) <= sum_heights(qs.take(j)),
    decreases j - i,
{
    if i < j {
        lemma_sum_mono(qs, i, j - 1);
        lemma_sum_take_succ(qs, j - 1);
    }
}

proof fn lemma_sum_full(qs: Seq<Quad>)
    ensures
        sum_heights(qs.take(qs.len() as int)) == sum_heights(qs),
{
    assert(qs.take(qs.len() as int) =~= qs);
}

/// In a first-fit placement whose footprints fit the row budget, placement
/// `j` lies within the first `sum_heights(qs.take(j + 1))` rows.
proof fn lemma_ff_row_bound(qs: Seq<Quad>, size: int, ts: Seq<TexQuad>, j: int)
    requires
        is_first_fit(qs, size, ts),
        forall|k: int|
            0 <= k < qs.len() ==> 1 <= (#[trigger] qs[k]).tex_size.0 <= size && 1
                <= qs[k].tex_size.1,
        sum_heights(qs) <= size,
        0 <= j < qs.len(),
    ensures
        ts[j].y + ts[j].height <= sum_heights(qs.take(j + 1)),
    decreases j,
{
    assert forall|j2: int| 0 <= j2 < j implies (#[trigger] ts[j2]).y + ts[j2].height
        <= sum_heights(qs.take(j2 + 1)) by {
        lemma_ff_row_bound(qs, size, ts, j2);
    }
    let yy = sum_heights(qs.take(j));
    let w = qs[j].tex_size.0 as int;
    let h = qs[j].tex_size.1 as int;
    lemma_sum_mono(qs, 0, j);
    lemma_sum_mono(qs, j + 1, qs.len() as int);
    lemma_sum_take_succ(qs, j);
    lemma_sum_full(qs);
    assert(qs.take(0) =~= Seq::<Quad>::empty());
    // Everything at row yy and below is free of earlier placements.
    assert forall|u: int, v: int| 0 <= u < w && yy <= v < yy + h implies !covered_by(
        ts.take(j),
        u,
        v,
    ) by {
        if covered_by(ts.take(j), u, v) {
            let k = choose|k: int| 0 <= k < ts.take(j).len() && in_rect(ts.take(j)[k], u, v);
            assert(ts.take(j)[k] == ts[k]);
            lemma_sum_mono(qs, k + 1, j);
            assert(v < ts[k].y + ts[k].height);
            assert(false);
        }
    }
    assert(fits(ts.take(j), size, 0, yy, w, h));
    // First fit places no later than the always free position (0, yy).
    assert(0 <= yy < size);
    if ts[j].y > yy || (ts[j].y == yy && ts[j].x > 0) {
        assert(!fits(ts.take(j), size, 0, yy, w, h));
        assert(false);
    }
}

/// At any size at least the widest footprint and the total of the heights,
/// sequential first-fit cannot fail.
pub proof fn lemma_pack_succeeds(qs: Seq<Quad>, size: int)
    requires
        1 <= size,
        forall|k: int|
            0 <= k < qs.len() ==> 1 <= (#[trigger] qs[k]).tex_size.0 <= size && 1
                <= qs[k].tex_size.1,
        sum_heights(qs) <= size,
    ensures
        !pack_fails(qs, size),
{
    if pack_fails(qs, size) {
        let (k, ts) = choose|k: int, ts: Seq<TexQuad>|
            0 <= k < qs.len() && #[trigger] is_first_fit(qs.take(k), size, ts) && (forall|
                x: int,
                y: int,
            |
                0 <= x < size && 0 <= y < size ==> !#[trigger] fits(
                    ts,
                    size,
                    x,
                    y,
                    qs[k].tex_size.0 as int,
                    qs[k].tex_size.1 as int,
                ));
        let pre = qs.take(k);
        assert forall|k2: int| 0 <= k2 < pre.len() implies 1 <= (#[trigger] pre[k2]).tex_size.0
            <= size && 1 <= pre[k2].tex_size.1 by {
            assert(pre[k2] == qs[k2]);
        }
        lemma_sum_mono(qs, k, qs.len() as int);
        lemma_sum_full(qs);
        assert(sum_heights(pre) <= size) by {
            lemma_sum_mono(qs, k, qs.len() as int);
        }
        assert forall|j2: int| 0 <= j2 < k implies (#[trigger] ts[j2]).y + ts[j2].height
            <= sum_heights(qs.take(j2 + 1)) by {
            assert(pre.take(j2 + 1) =~= qs.take(j2 + 1));
            lemma_ff_row_bound(pre, size, ts, j2);
        }
        let yy = sum_heights(qs.take(k));
        let w = qs[k].tex_size.0 as int;
        let h = qs[k].tex_size.1 as int;
        lemma_sum_mono(qs, 0, k);
        lemma_sum_mono(qs, k + 1, qs.len() as int);
        lemma_sum_take_succ(qs, k);
        assert(qs.take(0) =~= Seq::<Quad>::empty());
        assert forall|u: int, v: int| 0 <= u < w && yy <= v < yy + h implies !covered_by(
            ts,
            u,
            v,
        ) by {
            if covered_by(ts, u, v) {
                let k2 = choose|k2: int| 0 <= k2 < ts.len() && in_rect(ts[k2], u, v);
                lemma_sum_mono(qs, k2 + 1, k);
                assert(v < ts[k2].y + ts[k2].height);
                assert(false);
            }
        }
        assert(fits(ts, size, 0, yy, w, h));
        assert(0 <= yy < size);
        assert(false);
    }
}

/// A positive power of two.
pub open spec fn is_pow2(n: int) -> bool
    decreases n,
{
    if n <= 0 {
        false
    } else if n == 1 {
        true
    } else {
        n % 2 == 0 && is_pow2(n / 2)
    }
}

/// Packs the quads' footprints into the smallest power-of-two square that
/// sequential first-fit can fill, doubling the attempted size on failure.
pub fn pack_quad_texture(quads: &Vec<Quad>) -> (r: (Vec<TexQuad>, usize))
    requires
        forall|k: int|
            0 <= k < quads@.len() ==> 1 <= (#[trigger] quads@[k]).tex_size.0 <= 0x1000 && 1
                <= quads@[k].tex_size.1 <= 0x1000,
        sum_heights(quads@) <= 0x1000,
    ensures
        is_pow2(r.1 as int),
        is_first_fit(quads@, r.1 as int, r.0@),
        forall|p: int| is_pow2(p) && 1 <= p < r.1 ==> pack_fails(quads@, p),
{
    let mut size: usize = 1;
    let mut tex_quads = try_pack_quad_texture(quads, size);
    while tex_quads.is_none()
        invariant
            forall|k: int|
                0 <= k < quads@.len() ==> 1 <= (#[trigger] quads@[k]).tex_size.0 <= 0x1000 && 1
                    <= quads@[k].tex_size.1 <= 0x1000,
            sum_heights(quads@) <= 0x1000,
            1 <= size <= 0x1000,
            is_pow2(size as int),
            tex_quads matches Some(ts) ==> is_first_fit(quads@, size as int, ts@),
            tex_quads is None ==> pack_fails(quads@, size as int),
            forall|p: int| is_pow2(p) && 1 <= p < size ==> pack_fails(quads@, p),
        decreases 0x1000 - size,
    {
        proof {
            if size >= 0x1000 {
                lemma_pack_succeeds(quads@, size as int);
                assert(false);
            }
            reveal_with_fuel(is_pow2, 14);
            assert(is_pow2(0x1000));
            lemma_pow2_double(size as int, 0x1000);
            assert((2 * size) % 2 == 0 && (2 * size) / 2 == size as int);
            assert forall|p: int| is_pow2(p) && 1 <= p < 2 * size implies pack_fails(
                quads@,
                p,
            ) by {
                if p > size {
                    lemma_pow2_double(size as int, p);
                    assert(false);
                } else if p == size {
                    assert(pack_fails(quads@, p));
                }
            }
        }
        size = size * 2;
        tex_quads = try_pack_quad_texture(quads, size);
    }
    let ts = tex_quads.unwrap();
    (ts, size)
}

/// A power of two strictly above another is at least its double.
proof fn lemma_pow2_double(s: int, p: int)
    requires
        is_pow2(s),
        is_pow2(p),
        p > s,
    ensures
        p >= 2 * s,
    decreases s,
{
    assert(p > 1);
    assert(is_pow2(p / 2) && p % 2 == 0);
    if s == 1 {
    } else {
        assert(is_pow2(s / 2) && s % 2 == 0);
        lemma_pow2_double(s / 2, p / 2);
    }
}

/// No two first-fit placements overlap, and all lie within the square.
pub proof fn lemma_first_fit_disjoint(
    qs: Seq<Quad>,
    size: int,
    ts: Seq<TexQuad>,
    k1: int,
    k2: int,
    u: int,
    v: int,
)
    requires
        is_first_fit(qs, size, ts),
        0 <= k1 < k2 < ts.len(),
        in_rect(ts[k1], u, v),
    ensures
        !in_rect(ts[k2], u, v),
        ts[k2].x + ts[k2].width <= size,
        ts[k2].y + ts[k2].height <= size,
{
    assert(ts.take(k2)[k1] == ts[k1]);
    if in_rect(ts[k2], u, v) {
        assert(covered_by(ts.take(k2), u, v));
        assert(false);
    }
}

/// Remaps each quad's unit-square texture corners onto its placed rectangle:
/// the minimum corner becomes `(x, size - y - height)` and the extent
/// `(width, height)`, all as exact fractions over the atlas size.
pub fn apply_uv_to_quads(quads: &mut Vec<Quad>, tex_quads: &Vec<TexQuad>, size: usize)
    requires
        old(quads)@.len() == tex_quads@.len(),
        1 <= size,
        forall|k: int|
            0 <= k < tex_quads@.len() ==> (#[trigger] tex_quads@[k]).x + tex_quads@[k].width
                <= size && tex_quads@[k].y + tex_quads@[k].height <= size,
        forall|k: int, c: int|
            0 <= k < old(quads)@.len() && 0 <= c < 4 ==> ((#[trigger] old(quads)@[k].uvs@[c]).0 <= 1 && old(quads)@[k].uvs@[c].1 <= 1),
    ensures
        final(quads)@.len() == old(quads)@.len(),
        forall|k: int|
            0 <= k < final(quads)@.len() ==> ((#[trigger] final(quads)@[k]).vertices == old(quads)@[k].vertices && final(quads)@[k].normal == old(quads)@[k].normal && final(quads)@[k].tex_size == old(quads)@[k].tex_size && final(quads)@[k].uv_den == size),
        forall|k: int, c: int|
            0 <= k < final(quads)@.len() && 0 <= c < 4 ==> ((#[trigger] final(quads)@[k].uvs@[c]).0 == tex_quads@[k].x + old(quads)@[k].uvs@[c].0 * tex_quads@[k].width
                && final(quads)@[k].uvs@[c].1 == size - tex_quads@[k].y - tex_quads@[k].height + old(quads)@[k].uvs@[c].1 * tex_quads@[k].height),
{
    let n = quads.len();
    let mut k: usize = 0;
    while k < n
        invariant
            n == old(quads)@.len(),
            quads@.len() == n,
            tex_quads@.len() == n,
            1 <= size,
            k <= n,
            forall|k2: int|
                0 <= k2 < n ==> (#[trigger] tex_quads@[k2]).x + tex_quads@[k2].width <= size
                    && tex_quads@[k2].y + tex_quads@[k2].height <= size,
            forall|k2: int, c: int|
                0 <= k2 < n && 0 <= c < 4 ==> ((#[trigger] old(quads)@[k2].uvs@[c]).0 <= 1 && old(quads)@[k2].uvs@[c].1 <= 1),
            forall|k2: int| k <= k2 < n ==> #[trigger] quads@[k2] == old(quads)@[k2],
            forall|k2: int|
                0 <= k2 < k ==> ((#[trigger] quads@[k2]).vertices == old(quads)@[k2].vertices
                    && quads@[k2].normal == old(quads)@[k2].normal && quads@[k2].tex_size == old(quads)@[k2].tex_size && quads@[k2].uv_den == size),
            forall|k2: int, c: int|
                0 <= k2 < k && 0 <= c < 4 ==> ((#[trigger] quads@[k2].uvs@[c]).0 == tex_quads@[k2].x
                    + old(quads)@[k2].uvs@[c].0 * tex_quads@[k2].width && quads@[k2].uvs@[c].1
                    == size - tex_quads@[k2].y - tex_quads@[k2].height + old(quads)@[k2].uvs@[c].1 * tex_quads@[k2].height),
        decreases n - k,
    {
        let q = quads[k];
        let t = tex_quads[k];
        let base_u = t.x;
        let base_v = size - t.y - t.height;
        proof {
            lemma_uv_scale(q.uvs@[0].0 as int, t.width as int);
            lemma_uv_scale(q.uvs@[0].1 as int, t.height as int);
            lemma_uv_scale(q.uvs@[1].0 as int, t.width as int);
            lemma_uv_scale(q.uvs@[1].1 as int, t.height as int);
            lemma_uv_scale(q.uvs@[2].0 as int, t.width as int);
            lemma_uv_scale(q.uvs@[2].1 as int, t.height as int);
            lemma_uv_scale(q.uvs@[3].0 as int, t.width as int);
            lemma_uv_scale(q.uvs@[3].1 as int, t.height as int);
        }
        let uvs = [
            (base_u + q.uvs[0].0 * t.width, base_v + q.uvs[0].1 * t.height),
            (base_u + q.uvs[1].0 * t.width, base_v + q.uvs[1].1 * t.height),
            (base_u + q.uvs[2].0 * t.width, base_v + q.uvs[2].1 * t.height),
            (base_u + q.uvs[3].0 * t.width, base_v + q.uvs[3].1 * t.height),
        ];
        let newq = Quad {
            vertices: q.vertices,
            normal: q.normal,
            uvs,
            uv_den: size,
            tex_size: q.tex_size,
        };
        quads[k] = newq;
        k += 1;
    }
}

/// A texture coordinate numerator scaled by a corner factor of at most one
/// stays within the extent.
proof fn lemma_uv_scale(u: int, w: int)
    requires
        0 <= u <= 1,
        0 <= w,
    ensures
        0 <= u * w <= w,
{
    assert(0 <= u * w <= w) by (nonlinear_arith)
        requires
            0 <= u <= 1,
            0 <= w,
    ;
}

/// Texture round trip: the assigned minimum corner and extents, scaled back
/// by the atlas size, reproduce the placed rectangle exactly: the minimum
/// corner numerators are `(x, size - y - height)` and the extents
/// `(width, height)`.
pub proof fn lemma_uv_round_trip(q: Quad, t: TexQuad, size: int)
    requires
        q.uv_den == size,
        t.y + t.height <= size,
        q.uvs@[0].0 == t.x && q.uvs@[0].1 == size - t.y - t.height,
        q.uvs@[2].0 == t.x + t.width && q.uvs@[2].1 == size - t.y,
    ensures
        t.x == q.uvs@[0].0,
        t.width == q.uvs@[2].0 - q.uvs@[0].0,
        t.height == q.uvs@[2].1 - q.uvs@[0].1,
        t.y == size - q.uvs@[0].1 - (q.uvs@[2].1 - q.uvs@[0].1),
{
}

} // verus!
