//! Counting, coplanarity and distinctness facts about the cube: the closed
//! forms of its face counts, the number of its face triangles and edges, that
//! every face triangle lies on a square face, and that none occurs twice.

use vstd::prelude::*;
use vstd::arithmetic::power2::{pow2, lemma_pow2_unfold, lemma_pow2_pos};
use vstd::arithmetic::div_mod::lemma_fundamental_div_mod_converse;
use crate::bits::{
    bit,
    bit_diff,
    lemma_below_when_quotient_zero,
    lemma_bit_above,
    lemma_bit_diff_congruent,
    lemma_bit_diff_self,
    lemma_bit_is_binary,
    lemma_high_bit,
    lemma_same_bits_equal,
    lemma_set_clear_bit,
    lemma_zeros_congruent,
    zeros,
    zeros_sum,
};
use crate::math::{binomial, pairs_in};
use crate::topology::{
    corner,
    differing,
    edge_count,
    face_list,
    group_faces,
    in_group,
    plane_faces,
    row_count,
    shared_at,
    shared_dims,
    sign,
    square_triangles,
    vertex,
};

verus! {

/// The number of m-faces `2^(n-m) * C(n, m)` is `2^n` vertices,
/// `n * 2^(n-1)` edges and `C(n, 2) * 2^(n-2)` squares, where
/// `C(n, 2) = n(n-1)/2`.
pub proof fn lemma_face_count_closed_forms(n: nat)
    requires
        n >= 2,
    ensures
        pow2(n) * binomial(n, 0) == pow2(n),
        pow2((n - 1) as nat) * binomial(n, 1) == n * pow2((n - 1) as nat),
        pow2((n - 2) as nat) * binomial(n, 2) == (n * (n - 1) / 2) * pow2((n - 2) as nat),
{
    crate::math::lemma_binomial_one(n);
    crate::math::lemma_binomial_two(n);
    assert(binomial(n, 0) == 1);
    assert(pow2((n - 1) as nat) * n == n * pow2((n - 1) as nat)) by (nonlinear_arith);
    assert(pow2((n - 2) as nat) * (n * (n - 1) / 2) == (n * (n - 1) / 2) * pow2((n - 2) as nat))
        by (nonlinear_arith);
}

/// The base vertices in `[2^k, 2^k + t)` mirror those in `[0, t)`, unless
/// bit `k` is one of the spanning axes.
proof fn lemma_group_faces_shift(a: nat, b: nat, k: nat, t: nat)
    requires
        t <= pow2(k),
    ensures
        group_faces(a, b, pow2(k) + t).len() == group_faces(a, b, pow2(k)).len() + if k == a || k
            == b {
            0
        } else {
            group_faces(a, b, t).len()
        },
    decreases t,
{
    if t > 0 {
        let u = (t - 1) as nat;
        lemma_group_faces_shift(a, b, k, u);
        lemma_high_bit(k, u, a);
        lemma_high_bit(k, u, b);
        assert(in_group((pow2(k) + u) as nat, a, b) == (k != a && k != b && in_group(u, a, b)));
        assert((pow2(k) + t - 1) as nat == (pow2(k) + u) as nat);
    }
}

/// Number of axes among `a` and `b` that lie below `k`.
pub open spec fn axes_below(a: nat, b: nat, k: nat) -> nat {
    (if a < k {
        1nat
    } else {
        0nat
    }) + (if b < k {
        1nat
    } else {
        0nat
    })
}

/// Below `2^k` there are `2^(k - axes_below)` base vertices of squares
/// spanned by `a` and `b`.
proof fn lemma_group_faces_len(a: nat, b: nat, k: nat)
    requires
        a != b,
    ensures
        axes_below(a, b, k) <= k,
        group_faces(a, b, pow2(k)).len() == 2 * pow2((k - axes_below(a, b, k)) as nat),
    decreases k,
{
    vstd::arithmetic::power2::lemma2_to64();
    if k == 0 {
        lemma_pow2_pos(a);
        lemma_pow2_pos(b);
        lemma_fundamental_div_mod_converse(0, pow2(a) as int, 0, 0);
        lemma_fundamental_div_mod_converse(0, pow2(b) as int, 0, 0);
        assert(bit(0, a) == 0);
        assert(bit(0, b) == 0);
        assert(group_faces(a, b, 1) == group_faces(a, b, 0) + square_triangles(0, a, b));
    } else {
        let m = (k - 1) as nat;
        lemma_group_faces_len(a, b, m);
        lemma_pow2_unfold(k);
        lemma_group_faces_shift(a, b, m, pow2(m));
        assert(pow2(m) + pow2(m) == pow2(k));
        if m != a && m != b {
            lemma_pow2_unfold((k - axes_below(a, b, k)) as nat);
        }
    }
}

/// Each plane of `planes` contributes `2 * 2^(n-2)` triangles.
proof fn lemma_plane_faces_len(n: nat, planes: Seq<(nat, nat)>)
    requires
        n >= 2,
        forall|t: int| 0 <= t < planes.len() ==> #[trigger] planes[t].0 < planes[t].1 < n,
    ensures
        plane_faces(n, planes).len() == planes.len() * (2 * pow2((n - 2) as nat)),
    decreases planes.len(),
{
    if planes.len() > 0 {
        let last = planes.last();
        assert(planes[planes.len() - 1] == last);
        lemma_plane_faces_len(n, planes.drop_last());
        lemma_group_faces_len(last.0, last.1, n);
        assert(axes_below(last.0, last.1, n) == 2);
        assert(planes.drop_last().len() * (2 * pow2((n - 2) as nat)) + 2 * pow2((n - 2) as nat)
            == planes.len() * (2 * pow2((n - 2) as nat))) by (nonlinear_arith)
            requires
                planes.drop_last().len() + 1 == planes.len(),
        ;
    }
}

/// The n-cube has `2 * C(n, 2) * 2^(n-2)` face triangles: two for each of its
/// squares.
pub proof fn lemma_face_list_len(n: nat)
    requires
        n >= 2,
    ensures
        face_list(n).len() == 2 * (pow2((n - 2) as nat) * binomial(n, 2)),
{
    let planes = pairs_in(0, n);
    assert forall|t: int| 0 <= t < planes.len() implies #[trigger] planes[t].0 < planes[t].1 < n by {
        crate::math::lemma_pairs_in_bounds(0, n, t);
    }
    lemma_plane_faces_len(n, planes);
    crate::math::lemma_pairs_in_len(0, n);
    assert(binomial(n, 2) * (2 * pow2((n - 2) as nat)) == 2 * (pow2((n - 2) as nat) * binomial(
        n,
        2,
    ))) by (nonlinear_arith);
}

/// A face triangle of the n-cube: three vertices of the cube that share
/// exactly `n - 2` coordinates, so that they lie on one square face.
pub open spec fn is_face_triangle(n: nat, tri: (nat, nat, nat)) -> bool {
    &&& tri.0 < pow2(n)
    &&& tri.1 < pow2(n)
    &&& tri.2 < pow2(n)
    &&& shared_dims(seq![vertex(n, tri.0), vertex(n, tri.1), vertex(n, tri.2)], n).len() == n - 2
}

/// Points that agree exactly off axes `a` and `b` share `m - axes_below(a, b, m)`
/// of their first `m` coordinates.
proof fn lemma_shared_off_axes(points: Seq<Seq<i8>>, a: nat, b: nat, m: nat)
    requires
        a != b,
        forall|d: int| 0 <= d < m ==> (shared_at(points, d) <==> (d != a && d != b)),
    ensures
        axes_below(a, b, m) <= m,
        shared_dims(points, m).len() == m - axes_below(a, b, m),
    decreases m,
{
    if m > 0 {
        lemma_shared_off_axes(points, a, b, (m - 1) as nat);
    }
}

/// The corners of the square based at `i` and spanned by `a < b` are
/// vertices of the cube with the signs of `i` off the two axes.
proof fn lemma_square_corners(n: nat, a: nat, b: nat, i: nat, j: nat)
    requires
        a < b < n,
        i < pow2(n),
        in_group(i, a, b),
    ensures
        corner(i, a, b, 1) < pow2(n),
        corner(i, a, b, 2) < pow2(n),
        corner(i, a, b, 3) < pow2(n),
        bit(corner(i, a, b, 1), j) == if j == a {
            1nat
        } else {
            bit(i, j)
        },
        bit(corner(i, a, b, 2), j) == if j == b {
            1nat
        } else {
            bit(i, j)
        },
        bit(corner(i, a, b, 3), j) == if j == a || j == b {
            1nat
        } else {
            bit(i, j)
        },
{
    let c1 = i + pow2(a);
    let c2 = i + pow2(b);
    let c3 = c1 + pow2(b);
    let pn = pow2(n);
    lemma_pow2_pos(n);
    lemma_fundamental_div_mod_converse(i as int, pn as int, 0, i as int);
    assert(i / pn == 0);
    lemma_set_clear_bit(i, a, j);
    lemma_set_clear_bit(i, b, j);
    lemma_set_clear_bit(i, a, b);
    assert(bit(c1, b) == 0);
    lemma_set_clear_bit(c1, b, j);
    lemma_set_clear_bit(i, a, n);
    assert(c1 / pn == 0);
    lemma_set_clear_bit(i, b, n);
    assert(c2 / pn == 0);
    lemma_set_clear_bit(c1, b, n);
    assert(c3 / pn == 0);
    lemma_below_when_quotient_zero(c1, pn);
    lemma_below_when_quotient_zero(c2, pn);
    lemma_below_when_quotient_zero(c3, pn);
    assert(corner(i, a, b, 3) == c3);
}

/// Triangles of the squares spanned by `a < b` with base below `m` are face
/// triangles.
proof fn lemma_group_faces_valid(n: nat, a: nat, b: nat, m: nat)
    requires
        a < b < n,
        m <= pow2(n),
    ensures
        forall|t: int| 0 <= t < group_faces(a, b, m).len() ==> is_face_triangle(n, #[trigger] group_faces(a, b, m)[t]),
    decreases m,
{
    if m > 0 {
        let i = (m - 1) as nat;
        lemma_group_faces_valid(n, a, b, i);
        if in_group(i, a, b) {
            let sq = square_triangles(i, a, b);
            let v = |c: nat| vertex(n, corner(i, a, b, c));
            assert forall|j: nat| j < n implies #[trigger] corner_signs(n, a, b, i, j) by {
                lemma_square_corners(n, a, b, i, j);
            }
            let p0 = seq![v(0), v(1), v(2)];
            let p1 = seq![v(3), v(2), v(1)];
            assert forall|d: int| 0 <= d < n implies (shared_at(p0, d) <==> (d != a && d != b)) by {
                assert(corner_signs(n, a, b, i, d as nat));
                if d == a {
                    assert(p0[1][d] != p0[0][d]);
                } else if d == b {
                    assert(p0[2][d] != p0[0][d]);
                }
            }
            assert forall|d: int| 0 <= d < n implies (shared_at(p1, d) <==> (d != a && d != b)) by {
                assert(corner_signs(n, a, b, i, d as nat));
                if d == a {
                    assert(p1[1][d] != p1[0][d]);
                } else if d == b {
                    assert(p1[2][d] != p1[0][d]);
                }
            }
            lemma_shared_off_axes(p0, a, b, n);
            lemma_shared_off_axes(p1, a, b, n);
            lemma_square_corners(n, a, b, i, 0);
            assert(is_face_triangle(n, sq[0]));
            assert(is_face_triangle(n, sq[1]));
        }
        let prev = group_faces(a, b, i);
        assert forall|t: int| 0 <= t < group_faces(a, b, m).len() implies is_face_triangle(n, #[trigger] group_faces(a, b, m)[t]) by {
            if t < prev.len() {
                assert(group_faces(a, b, m)[t] == prev[t]);
            }
        }
    }
}

/// The signs of the corners of a square at coordinate `j`.
spec fn corner_signs(n: nat, a: nat, b: nat, i: nat, j: nat) -> bool {
    &&& sign(corner(i, a, b, 0), j) == sign(i, j)
    &&& sign(corner(i, a, b, 1), j) == if j == a { -1i8 } else { sign(i, j) }
    &&& sign(corner(i, a, b, 2), j) == if j == b { -1i8 } else { sign(i, j) }
    &&& sign(corner(i, a, b, 3), j) == if j == a || j == b { -1i8 } else { sign(i, j) }
}

/// Every triangle of the face list lies on a square face of the cube: its
/// vertices are vertices of the cube sharing exactly `n - 2` coordinates.
pub proof fn lemma_faces_are_squares(n: nat)
    requires
        n >= 2,
    ensures
        forall|t: int| 0 <= t < face_list(n).len() ==> is_face_triangle(n, #[trigger] face_list(n)[t]),
{
    let planes = pairs_in(0, n);
    assert forall|t: int| 0 <= t < planes.len() implies #[trigger] planes[t].0 < planes[t].1 < n by {
        crate::math::lemma_pairs_in_bounds(0, n, t);
    }
    lemma_plane_faces_valid(n, planes);
}

proof fn lemma_plane_faces_valid(n: nat, planes: Seq<(nat, nat)>)
    requires
        forall|t: int| 0 <= t < planes.len() ==> #[trigger] planes[t].0 < planes[t].1 < n,
    ensures
        forall|t: int| 0 <= t < plane_faces(n, planes).len() ==> is_face_triangle(n, #[trigger] plane_faces(n, planes)[t]),
    decreases planes.len(),
{
    if planes.len() > 0 {
        let last = planes.last();
        assert(planes[planes.len() - 1] == last);
        let rest = planes.drop_last();
        assert forall|t: int| 0 <= t < rest.len() implies #[trigger] rest[t].0 < rest[t].1 < n by {
            assert(rest[t] == planes[t]);
        }
        lemma_plane_faces_valid(n, rest);
        lemma_group_faces_valid(n, last.0, last.1, pow2(n));
        let prev = plane_faces(n, rest);
        let g = group_faces(last.0, last.1, pow2(n));
        assert forall|t: int| 0 <= t < plane_faces(n, planes).len() implies is_face_triangle(n, #[trigger] plane_faces(n, planes)[t]) by {
            if t < prev.len() {
                assert(plane_faces(n, planes)[t] == prev[t]);
            } else {
                assert(plane_faces(n, planes)[t] == g[t - prev.len()]);
            }
        }
    }
}

/// The base vertex of the square a face triangle was cut from: `w0` of
/// `(w0, w1, w2)`, and `w1 + w2 - w3` of `(w3, w2, w1)`.
pub open spec fn triangle_base(tri: (nat, nat, nat)) -> int {
    if tri.0 < tri.1 {
        tri.0 as int
    } else {
        tri.2 + tri.1 - tri.0
    }
}

/// The two edge lengths `(2^a, 2^b)` of the square a face triangle was cut
/// from.
pub open spec fn triangle_span(tri: (nat, nat, nat)) -> (int, int) {
    if tri.0 < tri.1 {
        (tri.1 - tri.0, tri.2 - tri.0)
    } else {
        (tri.0 - tri.1, tri.0 - tri.2)
    }
}

/// The triangles of the squares spanned by `a` and `b` with base below `m`
/// are pairwise distinct, all with span `(2^a, 2^b)` and base below `m`.
proof fn lemma_group_faces_distinct(a: nat, b: nat, m: nat)
    ensures
        forall|t: int|
            0 <= t < group_faces(a, b, m).len() ==> triangle_span(#[trigger] group_faces(a, b, m)[t])
                == (pow2(a) as int, pow2(b) as int) && 0 <= triangle_base(group_faces(a, b, m)[t]) < m,
        forall|t1: int, t2: int|
            0 <= t1 < t2 < group_faces(a, b, m).len() ==> #[trigger] group_faces(a, b, m)[t1]
                != #[trigger] group_faces(a, b, m)[t2],
    decreases m,
{
    if m > 0 {
        let i = (m - 1) as nat;
        lemma_group_faces_distinct(a, b, i);
        lemma_pow2_pos(a);
        lemma_pow2_pos(b);
        let prev = group_faces(a, b, i);
        let g = group_faces(a, b, m);
        let sq = square_triangles(i, a, b);
        assert(triangle_base(sq[0]) == i && triangle_base(sq[1]) == i);
        assert(triangle_span(sq[0]) == (pow2(a) as int, pow2(b) as int));
        assert(triangle_span(sq[1]) == (pow2(a) as int, pow2(b) as int));
        assert forall|t: int| 0 <= t < g.len() implies triangle_span(#[trigger] g[t]) == (pow2(a) as int, pow2(b) as int)
            && 0 <= triangle_base(g[t]) < m by {
            if t < prev.len() {
                assert(g[t] == prev[t]);
            } else {
                assert(g[t] == sq[t - prev.len()]);
            }
        }
        assert forall|t1: int, t2: int| 0 <= t1 < t2 < g.len() implies #[trigger] g[t1] != #[trigger] g[t2] by {
            if t2 >= prev.len() {
                assert(g[t2] == sq[t2 - prev.len()]);
                if t1 < prev.len() {
                    assert(g[t1] == prev[t1]);
                    assert(triangle_base(prev[t1]) < i);
                } else {
                    assert(g[t1] == sq[t1 - prev.len()]);
                    assert(sq[0].0 < sq[0].1);
                    assert(!(sq[1].0 < sq[1].1));
                }
            } else {
                assert(g[t1] == prev[t1]);
                assert(g[t2] == prev[t2]);
            }
        }
    }
}

/// Distinct planes `a < b` span squares of distinct shapes.
proof fn lemma_span_injective(p: (nat, nat), q: (nat, nat))
    requires
        (pow2(p.0) as int, pow2(p.1) as int) == (pow2(q.0) as int, pow2(q.1) as int),
    ensures
        p == q,
{
    if p.0 < q.0 {
        vstd::arithmetic::power2::lemma_pow2_strictly_increases(p.0, q.0);
    } else if q.0 < p.0 {
        vstd::arithmetic::power2::lemma_pow2_strictly_increases(q.0, p.0);
    }
    if p.1 < q.1 {
        vstd::arithmetic::power2::lemma_pow2_strictly_increases(p.1, q.1);
    } else if q.1 < p.1 {
        vstd::arithmetic::power2::lemma_pow2_strictly_increases(q.1, p.1);
    }
}

/// For pairwise distinct planes, the face triangles are pairwise distinct,
/// each with the span of one of the planes.
proof fn lemma_plane_faces_distinct(n: nat, planes: Seq<(nat, nat)>)
    requires
        forall|t1: int, t2: int| 0 <= t1 < t2 < planes.len() ==> #[trigger] planes[t1] != #[trigger] planes[t2],
    ensures
        forall|t: int|
            0 <= t < plane_faces(n, planes).len() ==> exists|q: int|
                0 <= q < planes.len() && triangle_span(#[trigger] plane_faces(n, planes)[t]) == (
                    pow2(#[trigger] planes[q].0) as int,
                    pow2(planes[q].1) as int,
                ),
        forall|t1: int, t2: int|
            0 <= t1 < t2 < plane_faces(n, planes).len() ==> #[trigger] plane_faces(n, planes)[t1]
                != #[trigger] plane_faces(n, planes)[t2],
    decreases planes.len(),
{
    if planes.len() > 0 {
        let last = planes.last();
        let k = planes.len() - 1;
        assert(planes[k] == last);
        let rest = planes.drop_last();
        assert forall|t1: int, t2: int| 0 <= t1 < t2 < rest.len() implies #[trigger] rest[t1] != #[trigger] rest[t2] by {
            assert(rest[t1] == planes[t1]);
            assert(rest[t2] == planes[t2]);
        }
        lemma_plane_faces_distinct(n, rest);
        lemma_group_faces_distinct(last.0, last.1, pow2(n));
        let prev = plane_faces(n, rest);
        let g = group_faces(last.0, last.1, pow2(n));
        let pf = plane_faces(n, planes);
        assert(pf == prev + g);
        assert forall|t: int| 0 <= t < pf.len() implies exists|q: int|
            0 <= q < planes.len() && triangle_span(#[trigger] pf[t]) == (
                pow2(#[trigger] planes[q].0) as int,
                pow2(planes[q].1) as int,
            ) by {
            if t < prev.len() {
                assert(pf[t] == prev[t]);
                let q = choose|q: int|
                    0 <= q < rest.len() && triangle_span(#[trigger] prev[t]) == (
                        pow2(#[trigger] rest[q].0) as int,
                        pow2(rest[q].1) as int,
                    );
                assert(rest[q] == planes[q]);
            } else {
                assert(pf[t] == g[t - prev.len()]);
                assert(triangle_span(g[t - prev.len()]) == (pow2(planes[k].0) as int, pow2(planes[k].1) as int));
            }
        }
        assert forall|t1: int, t2: int| 0 <= t1 < t2 < pf.len() implies #[trigger] pf[t1] != #[trigger] pf[t2] by {
            if t2 >= prev.len() && t1 < prev.len() {
                assert(pf[t1] == prev[t1]);
                assert(pf[t2] == g[t2 - prev.len()]);
                let q = choose|q: int|
                    0 <= q < rest.len() && triangle_span(#[trigger] prev[t1]) == (
                        pow2(#[trigger] rest[q].0) as int,
                        pow2(rest[q].1) as int,
                    );
                assert(rest[q] == planes[q]);
                if pf[t1] == pf[t2] {
                    lemma_span_injective(planes[q], last);
                    assert(planes[q] != planes[k]);
                }
            } else if t2 >= prev.len() {
                assert(pf[t1] == g[t1 - prev.len()]);
                assert(pf[t2] == g[t2 - prev.len()]);
            } else {
                assert(pf[t1] == prev[t1]);
                assert(pf[t2] == prev[t2]);
            }
        }
    }
}

/// No triangle occurs twice in the face list.
pub proof fn lemma_faces_distinct(n: nat)
    ensures
        forall|t1: int, t2: int|
            0 <= t1 < t2 < face_list(n).len() ==> #[trigger] face_list(n)[t1] != #[trigger] face_list(n)[t2],
{
    crate::math::lemma_pairs_in_distinct(0, n);
    lemma_plane_faces_distinct(n, pairs_in(0, n));
}

/// Number of `j` in `(i, m)` that differ from `i` in exactly one of the
/// bits below `n`.
pub open spec fn bit_row(n: nat, i: nat, m: nat) -> nat
    decreases m,
{
    if m <= i + 1 {
        0
    } else {
        bit_row(n, i, (m - 1) as nat) + if bit_diff(i, (m - 1) as nat, n) == 1 {
            1nat
        } else {
            0nat
        }
    }
}

/// Vertices of the cube differ in as many coordinates as their indices
/// differ in bits.
proof fn lemma_differing_vertices(n: nat, i: nat, j: nat, m: nat)
    requires
        m <= n,
    ensures
        differing(vertex(n, i), vertex(n, j), m) == bit_diff(i, j, m),
    decreases m,
{
    if m > 0 {
        lemma_differing_vertices(n, i, j, (m - 1) as nat);
        lemma_bit_is_binary(i, (m - 1) as nat);
        lemma_bit_is_binary(j, (m - 1) as nat);
    }
}

/// The count of single-bit neighbours above `i` and below `m` is unchanged
/// by a bit `n` that `i` and every such neighbour have clear.
proof fn lemma_bit_row_low(n: nat, i: nat, m: nat)
    requires
        i < pow2(n),
        m <= pow2(n),
    ensures
        bit_row(n + 1, i, m) == bit_row(n, i, m),
    decreases m,
{
    if m > i + 1 {
        lemma_bit_row_low(n, i, (m - 1) as nat);
        lemma_bit_above(i, n, n);
        lemma_bit_above((m - 1) as nat, n, n);
    }
}

/// Above `2^n`, the only single-bit neighbour of `i < 2^n` is `2^n + i`.
proof fn lemma_bit_row_high(n: nat, i: nat, t: nat)
    requires
        i < pow2(n),
        t <= pow2(n),
    ensures
        bit_row(n + 1, i, pow2(n) + t) == bit_row(n + 1, i, pow2(n)) + if i < t {
            1nat
        } else {
            0nat
        },
    decreases t,
{
    if t > 0 {
        let u = (t - 1) as nat;
        lemma_bit_row_high(n, i, u);
        let j = pow2(n) + u;
        assert forall|d: nat| d < n implies #[trigger] bit(j, d) == bit(u, d) by {
            lemma_high_bit(n, u, d);
        }
        lemma_high_bit(n, u, n);
        lemma_bit_above(i, n, n);
        lemma_bit_diff_congruent(i, j, u, n);
        assert(bit_diff(i, j, n + 1) == bit_diff(i, u, n) + 1);
        if bit_diff(i, u, n) == 0 {
            lemma_same_bits_equal(i, u, n);
        }
        if u == i {
            assert(bit_diff(i, i, n) == 0) by {
                lemma_bit_diff_self(i, n);
            }
        }
        assert((pow2(n) + t - 1) as nat == j);
    }
}

proof fn lemma_bit_row_empty(n: nat, i: nat, m: nat)
    requires
        m <= i + 1,
    ensures
        bit_row(n, i, m) == 0,
{
}

/// For `i = 2^n + k`, the neighbours above `i` mirror those of `k` above it.
proof fn lemma_bit_row_upper(n: nat, k: nat, t: nat)
    requires
        k < pow2(n),
        t <= pow2(n),
    ensures
        bit_row(n + 1, pow2(n) + k, pow2(n) + t) == bit_row(n, k, t),
    decreases t,
{
    let i = pow2(n) + k;
    if t <= k + 1 {
        lemma_bit_row_empty(n + 1, i, pow2(n) + t);
        lemma_bit_row_empty(n, k, t);
    } else {
        let u = (t - 1) as nat;
        lemma_bit_row_upper(n, k, u);
        let j = pow2(n) + u;
        assert forall|d: nat| d < n implies #[trigger] bit(j, d) == bit(u, d) by {
            lemma_high_bit(n, u, d);
        }
        assert forall|d: nat| d < n implies #[trigger] bit(i, d) == bit(k, d) by {
            lemma_high_bit(n, k, d);
        }
        lemma_high_bit(n, u, n);
        lemma_high_bit(n, k, n);
        lemma_bit_diff_congruent(i, j, u, n);
        lemma_bit_diff_congruent(u, i, k, n);
        assert((pow2(n) + t - 1) as nat == j);
    }
}

/// Vertex `i < 2^n` has one neighbour above it for each of its clear bits.
proof fn lemma_bit_row_zeros(n: nat, i: nat)
    requires
        i < pow2(n),
    ensures
        bit_row(n, i, pow2(n)) == zeros(i, n),
    decreases n,
{
    vstd::arithmetic::power2::lemma2_to64();
    if n == 0 {
        assert(i == 0);
    } else {
        let m = (n - 1) as nat;
        lemma_pow2_unfold(n);
        assert(pow2(n) == pow2(m) + pow2(m));
        if i < pow2(m) {
            lemma_bit_row_high(m, i, pow2(m));
            lemma_bit_row_low(m, i, pow2(m));
            lemma_bit_row_zeros(m, i);
            lemma_bit_above(i, m, m);
        } else {
            let k = (i - pow2(m)) as nat;
            lemma_bit_row_upper(m, k, pow2(m));
            lemma_bit_row_zeros(m, k);
            assert forall|d: nat| d < m implies #[trigger] bit(i, d) == bit(k, d) by {
                lemma_high_bit(m, k, d);
            }
            lemma_zeros_congruent(i, k, m);
            lemma_high_bit(m, k, m);
        }
    }
}

/// On the cube's vertices, counting edges is counting single-bit neighbours.
proof fn lemma_cube_row_count(vs: Seq<Seq<i8>>, n: nat, i: nat, m: nat)
    requires
        vs.len() == pow2(n),
        forall|k: int| 0 <= k < pow2(n) ==> #[trigger] vs[k] == vertex(n, k as nat),
        i < pow2(n),
        m <= pow2(n),
    ensures
        row_count(vs, n, i as int, m as int) == bit_row(n, i, m),
    decreases m,
{
    if m > i + 1 {
        lemma_cube_row_count(vs, n, i, (m - 1) as nat);
        assert(vs[i as int] == vertex(n, i));
        assert(vs[m - 1] == vertex(n, (m - 1) as nat));
        lemma_differing_vertices(n, i, (m - 1) as nat, n);
    }
}

/// On the cube's vertices, the edges whose first vertex is below `m` number
/// as many as the clear bits of the indices below `m`.
pub proof fn lemma_cube_edge_count(vs: Seq<Seq<i8>>, n: nat, m: nat)
    requires
        vs.len() == pow2(n),
        forall|k: int| 0 <= k < pow2(n) ==> #[trigger] vs[k] == vertex(n, k as nat),
        m <= pow2(n),
    ensures
        edge_count(vs, n, m as int) == zeros_sum(n, m),
    decreases m,
{
    if m > 0 {
        lemma_cube_edge_count(vs, n, (m - 1) as nat);
        lemma_cube_row_count(vs, n, (m - 1) as nat, pow2(n));
        lemma_bit_row_zeros(n, (m - 1) as nat);
    }
}

} // verus!
