//! The vertices, edges and triangulated square faces of the n-cube.
//!
//! Vertex `i` of an n-cube of size `s` has coordinate `j` equal to `+s/2`
//! when bit `j` of `i` is clear and `-s/2` when it is set. The library keeps
//! each vertex as its vector of signs (`+1` or `-1`); scaling by `s/2` and
//! everything after it is real arithmetic done by the caller.

use vstd::prelude::*;
use vstd::arithmetic::power2::{pow2, lemma_pow2_unfold};
use crate::bits::{bit, lemma_pow2_le, lemma_zeros_total, zeros_sum};
use crate::counting::{
    is_face_triangle,
    lemma_cube_edge_count,
    lemma_face_count_closed_forms,
    lemma_face_list_len,
    lemma_faces_are_squares,
    lemma_faces_distinct,
};
use crate::math::{binomial, pairs_in, ExtendedMathOps};

verus! {

/// Dimensions for which the cube is generated.
pub open spec fn valid_dimension(n: nat) -> bool {
    3 <= n <= 9
}

/// Sign of coordinate `j` of vertex `i`.
pub open spec fn sign(i: nat, j: nat) -> i8 {
    if bit(i, j) == 0 {
        1i8
    } else {
        -1i8
    }
}

/// Vertex `i` of the n-cube, as its vector of signs.
pub open spec fn vertex(n: nat, i: nat) -> Seq<i8> {
    Seq::new(n, |j: int| sign(i, j as nat))
}

/// Whether all `points` agree on coordinate `d`.
pub open spec fn shared_at(points: Seq<Seq<i8>>, d: int) -> bool {
    forall|k: int| 0 <= k < points.len() ==> #[trigger] points[k][d] == points[0][d]
}

/// The coordinates below `m` on which all `points` agree, in increasing order.
pub open spec fn shared_dims(points: Seq<Seq<i8>>, m: nat) -> Seq<nat>
    decreases m,
{
    if m == 0 {
        Seq::empty()
    } else {
        let prev = shared_dims(points, (m - 1) as nat);
        if shared_at(points, m - 1) {
            prev.push((m - 1) as nat)
        } else {
            prev
        }
    }
}

/// Number of coordinates below `m` on which `u` and `v` differ.
pub open spec fn differing(u: Seq<i8>, v: Seq<i8>, m: nat) -> nat
    decreases m,
{
    if m == 0 {
        0
    } else {
        differing(u, v, (m - 1) as nat) + if u[m - 1] != v[m - 1] {
            1nat
        } else {
            0nat
        }
    }
}

/// Whether vertices `i < j` of `vs` differ in exactly one of their first `n`
/// coordinates.
pub open spec fn is_edge(vs: Seq<Seq<i8>>, n: nat, i: int, j: int) -> bool {
    &&& 0 <= i < j < vs.len()
    &&& differing(vs[i], vs[j], n) == 1
}

/// Strict lexicographic order on index pairs.
pub open spec fn pair_lt(p: (usize, usize), q: (usize, usize)) -> bool {
    p.0 < q.0 || (p.0 == q.0 && p.1 < q.1)
}

/// Whether vertex `i` lies in the group with positive sign on both axes `a`
/// and `b`; such a vertex is the first corner of a square face spanned by `a`
/// and `b`.
pub open spec fn in_group(i: nat, a: nat, b: nat) -> bool {
    bit(i, a) == 0 && bit(i, b) == 0
}

/// Corners of the square face based at `i` and spanned by axes `a < b`, in
/// increasing index order.
pub open spec fn corner(i: nat, a: nat, b: nat, c: nat) -> nat {
    if c == 0 {
        i
    } else if c == 1 {
        i + pow2(a)
    } else if c == 2 {
        i + pow2(b)
    } else {
        i + pow2(a) + pow2(b)
    }
}

/// The two triangles of a square face with corners `w0 < w1 < w2 < w3`:
/// `(w0, w1, w2)` and `(w3, w2, w1)`.
pub open spec fn square_triangles(i: nat, a: nat, b: nat) -> Seq<(nat, nat, nat)> {
    seq![
        (corner(i, a, b, 0), corner(i, a, b, 1), corner(i, a, b, 2)),
        (corner(i, a, b, 3), corner(i, a, b, 2), corner(i, a, b, 1)),
    ]
}

/// Triangles of the faces spanned by `a` and `b` whose base vertex is below `m`.
pub open spec fn group_faces(a: nat, b: nat, m: nat) -> Seq<(nat, nat, nat)>
    decreases m,
{
    if m == 0 {
        Seq::empty()
    } else {
        group_faces(a, b, (m - 1) as nat) + if in_group((m - 1) as nat, a, b) {
            square_triangles((m - 1) as nat, a, b)
        } else {
            Seq::empty()
        }
    }
}

/// Triangles of the faces spanned by each of `planes`, plane after plane.
pub open spec fn plane_faces(n: nat, planes: Seq<(nat, nat)>) -> Seq<(nat, nat, nat)>
    decreases planes.len(),
{
    if planes.len() == 0 {
        Seq::empty()
    } else {
        plane_faces(n, planes.drop_last()) + group_faces(planes.last().0, planes.last().1, pow2(n))
    }
}

/// All face triangles of the n-cube: for each pair of axes `a < b` in
/// lexicographic order, the squares spanned by `a` and `b` by increasing base
/// vertex.
pub open spec fn face_list(n: nat) -> Seq<(nat, nat, nat)> {
    plane_faces(n, pairs_in(0, n))
}

/// Two points agree on exactly the coordinates on which they do not differ.
pub proof fn lemma_shared_plus_differing(u: Seq<i8>, v: Seq<i8>, m: nat)
    requires
        m <= u.len(),
        m <= v.len(),
    ensures
        shared_dims(seq![u, v], m).len() + differing(u, v, m) == m,
    decreases m,
{
    if m > 0 {
        lemma_shared_plus_differing(u, v, (m - 1) as nat);
        let pts = seq![u, v];
        let d = m - 1;
        if u[d] == v[d] {
            assert(shared_at(pts, d));
        } else {
            assert(pts[1][d] != pts[0][d]);
        }
    }
}

/// Number of `j` in `(i, m)` such that vertices `i` and `j` of `vs` differ in
/// exactly one of their first `n` coordinates.
pub open spec fn row_count(vs: Seq<Seq<i8>>, n: nat, i: int, m: int) -> nat
    decreases m - i,
{
    if m <= i + 1 {
        0
    } else {
        row_count(vs, n, i, m - 1) + if differing(vs[i], vs[m - 1], n) == 1 {
            1nat
        } else {
            0nat
        }
    }
}

/// Number of edges of `vs` whose first vertex is below `m`.
pub open spec fn edge_count(vs: Seq<Seq<i8>>, n: nat, m: int) -> nat
    decreases m,
{
    if m <= 0 {
        0
    } else {
        edge_count(vs, n, m - 1) + row_count(vs, n, m - 1, vs.len() as int)
    }
}

/// Coordinate vectors of the vertices, one sign (`+1` or `-1`) per axis.
#[derive(Debug, Clone)]
pub struct NVertices(pub Vec<Vec<i8>>);

/// Each edge is a pair of vertex indices.
#[derive(Debug, Clone)]
pub struct NEdges(pub Vec<(usize, usize)>);

/// Each face triangle is a triple of vertex indices.
#[derive(Debug, Clone)]
pub struct NFaces(pub Vec<(usize, usize, usize)>);

impl NFaces {
    pub open spec fn view(&self) -> Seq<(nat, nat, nat)> {
        Seq::new(self.0@.len(), |t: int| (self.0@[t].0 as nat, self.0@[t].1 as nat, self.0@[t].2 as nat))
    }
}

impl NVertices {
    pub open spec fn view(&self) -> Seq<Seq<i8>> {
        Seq::new(self.0@.len(), |i: int| self.0@[i]@)
    }

    /// Holds exactly the `2^n` vertices of the n-cube in index order.
    pub open spec fn is_cube(&self, n: nat) -> bool {
        &&& self.0@.len() == pow2(n)
        &&& forall|i: int| 0 <= i < pow2(n) ==> #[trigger] self.0@[i]@ == vertex(n, i as nat)
    }
}

/// `2^e` as a machine integer.
fn power_of_two(e: usize) -> (r: usize)
    requires
        pow2(e as nat) <= usize::MAX,
    ensures
        r == pow2(e as nat),
{
    let mut r: usize = 1;
    let mut k: usize = 0;
    proof {
        vstd::arithmetic::power2::lemma2_to64();
    }
    while k < e
        invariant
            k <= e,
            r == pow2(k as nat),
            pow2(e as nat) <= usize::MAX,
        decreases e - k,
    {
        proof {
            lemma_pow2_unfold((k + 1) as nat);
            if k + 1 < e {
                vstd::arithmetic::power2::lemma_pow2_strictly_increases((k + 1) as nat, e as nat);
            }
        }
        r = r * 2;
        k = k + 1;
    }
    r
}

/// The coordinates on which all `points` agree, in increasing order; points
/// longer than the first are compared on its coordinates only.
pub fn shared_dimensions(points: &[&Vec<i8>]) -> (r: Vec<usize>)
    requires
        points@.len() >= 1,
        forall|k: int| 0 <= k < points@.len() ==> #[trigger] points@[k]@.len() >= points@[0]@.len(),
    ensures
        r@.len() == shared_dims(points@.map_values(|p: &Vec<i8>| p@), points@[0]@.len()).len(),
        forall|t: int| 0 <= t < r@.len() ==> r@[t] == shared_dims(points@.map_values(|p: &Vec<i8>| p@), points@[0]@.len())[t],
{
    let ghost pts = points@.map_values(|p: &Vec<i8>| p@);
    let len = points[0].len();
    let mut common: Vec<usize> = Vec::new();
    let mut d: usize = 0;
    while d < len
        invariant
            d <= len,
            len == points@[0]@.len(),
            pts == points@.map_values(|p: &Vec<i8>| p@),
            forall|k: int| 0 <= k < points@.len() ==> #[trigger] points@[k]@.len() >= len,
            common@.len() == shared_dims(pts, d as nat).len(),
            forall|t: int| 0 <= t < common@.len() ==> common@[t] == shared_dims(pts, d as nat)[t],
        decreases len - d,
    {
        let mut all = true;
        let mut k: usize = 0;
        while k < points.len()
            invariant
                d < len,
                k <= points@.len(),
                len == points@[0]@.len(),
                pts == points@.map_values(|p: &Vec<i8>| p@),
                forall|q: int| 0 <= q < points@.len() ==> #[trigger] points@[q]@.len() >= len,
                all <==> forall|q: int| 0 <= q < k ==> #[trigger] pts[q][d as int] == pts[0][d as int],
            decreases points@.len() - k,
        {
            assert(pts[k as int] == points@[k as int]@);
            assert(pts[0] == points@[0]@);
            if points[k][d] != points[0][d] {
                all = false;
            }
            k = k + 1;
        }
        assert(all <==> shared_at(pts, d as int));
        if all {
            common.push(d);
        }
        d = d + 1;
    }
    common
}

/// The combinatorial n-cube: its vertices (as sign vectors), its edges and
/// its triangulated square faces.
#[derive(Debug, Clone)]
pub struct NCube {
    pub dimensions: usize,
    pub vertices: NVertices,
    pub edges: NEdges,
    pub faces: NFaces,
}

/// The edge list of `vs`: each entry an edge, strictly increasing in
/// lexicographic order, and every edge present.
pub open spec fn is_edge_list(edges: Seq<(usize, usize)>, vs: Seq<Seq<i8>>, n: nat) -> bool {
    &&& forall|t: int| 0 <= t < edges.len() ==> is_edge(vs, n, #[trigger] edges[t].0 as int, edges[t].1 as int)
    &&& forall|t1: int, t2: int| 0 <= t1 < t2 < edges.len() ==> pair_lt(#[trigger] edges[t1], #[trigger] edges[t2])
    &&& forall|i: int, j: int| #[trigger] is_edge(vs, n, i, j) ==> edges.contains((i as usize, j as usize))
}

impl NCube {
    /// The cube of dimension `dimensions` with all of its vertices, edges and
    /// face triangles.
    pub open spec fn wf(&self) -> bool {
        &&& valid_dimension(self.dimensions as nat)
        &&& self.vertices.is_cube(self.dimensions as nat)
        &&& is_edge_list(self.edges.0@, self.vertices@, self.dimensions as nat)
        &&& self.edges.0@.len() == edge_count(self.vertices@, self.dimensions as nat, self.vertices@.len() as int)
        &&& self.faces@ == face_list(self.dimensions as nat)
    }

    /// Creates the `n` dimensional hypercube.
    pub fn new(n: usize) -> (r: Self)
        requires
            valid_dimension(n as nat),
        ensures
            r.wf(),
            r.dimensions == n,
    {
        let vertices = Self::_vertices(n);
        let faces = Self::_faces(&vertices, n);
        let edges = Self::_edges(&vertices, n);
        NCube { dimensions: n, vertices, edges, faces }
    }

    /// The edge list has no self-edges and no pair twice, in either order, and
    /// the two ends of every edge differ in the sign of exactly one
    /// coordinate.
    pub proof fn lemma_edges_simple(&self)
        requires
            self.wf(),
        ensures
            forall|t: int| 0 <= t < self.edges.0@.len() ==> #[trigger] self.edges.0@[t].0 != self.edges.0@[t].1,
            forall|t1: int, t2: int|
                0 <= t1 < self.edges.0@.len() && 0 <= t2 < self.edges.0@.len() && t1 != t2 ==> {
                    let e1 = #[trigger] self.edges.0@[t1];
                    let e2 = #[trigger] self.edges.0@[t2];
                    e1 != e2 && e1 != (e2.1, e2.0)
                },
            forall|t: int| 0 <= t < self.edges.0@.len() ==> {
                let e = #[trigger] self.edges.0@[t];
                &&& e.0 < self.vertices.0@.len()
                &&& e.1 < self.vertices.0@.len()
                &&& differing(self.vertices@[e.0 as int], self.vertices@[e.1 as int], self.dimensions as nat) == 1
            },
    {
        let es = self.edges.0@;
        assert forall|t1: int, t2: int|
            0 <= t1 < es.len() && 0 <= t2 < es.len() && t1 != t2 implies {
                let e1 = #[trigger] es[t1];
                let e2 = #[trigger] es[t2];
                e1 != e2 && e1 != (e2.1, e2.0)
            } by {
            assert(is_edge(self.vertices@, self.dimensions as nat, es[t1].0 as int, es[t1].1 as int));
            assert(is_edge(self.vertices@, self.dimensions as nat, es[t2].0 as int, es[t2].1 as int));
            if t1 < t2 {
                assert(pair_lt(es[t1], es[t2]));
            } else {
                assert(pair_lt(es[t2], es[t1]));
            }
        }
        assert forall|t: int| 0 <= t < es.len() implies #[trigger] es[t].0 != es[t].1 by {
            assert(is_edge(self.vertices@, self.dimensions as nat, es[t].0 as int, es[t].1 as int));
        }
        assert forall|t: int| 0 <= t < es.len() implies {
            let e = #[trigger] es[t];
            &&& e.0 < self.vertices.0@.len()
            &&& e.1 < self.vertices.0@.len()
            &&& differing(self.vertices@[e.0 as int], self.vertices@[e.1 as int], self.dimensions as nat) == 1
        } by {
            assert(is_edge(self.vertices@, self.dimensions as nat, es[t].0 as int, es[t].1 as int));
        }
    }

    /// The cube has `n * 2^(n-1)` edges, the closed form for its 1-faces.
    pub proof fn lemma_edge_count(&self)
        requires
            self.wf(),
        ensures
            self.edges.0@.len() == self.dimensions * pow2((self.dimensions - 1) as nat),
            self.edges.0@.len() == pow2((self.dimensions - 1) as nat) * binomial(self.dimensions as nat, 1),
    {
        let n = self.dimensions as nat;
        let vs = self.vertices@;
        assert forall|k: int| 0 <= k < pow2(n) implies #[trigger] vs[k] == vertex(n, k as nat) by {
            assert(self.vertices.0@[k]@ == vertex(n, k as nat));
        }
        lemma_cube_edge_count(vs, n, pow2(n));
        lemma_zeros_total(n);
        lemma_pow2_unfold(n);
        lemma_face_count_closed_forms(n);
        assert(self.edges.0@.len() == zeros_sum(n, pow2(n)));
        assert(2 * zeros_sum(n, pow2(n)) == n * (2 * pow2((n - 1) as nat)));
        assert(n * (2 * pow2((n - 1) as nat)) == 2 * (n * pow2((n - 1) as nat))) by (nonlinear_arith);
    }

    /// The cube's face list has `2 * C(n, 2) * 2^(n-2)` triangles, twice its
    /// number of squares; every triangle lies on a square face, and none
    /// occurs twice.
    pub proof fn lemma_faces_complete(&self)
        requires
            self.wf(),
        ensures
            self.faces.0@.len() == 2 * (pow2((self.dimensions - 2) as nat) * binomial(self.dimensions as nat, 2)),
            forall|t: int| 0 <= t < self.faces.0@.len() ==> is_face_triangle(self.dimensions as nat, #[trigger] self.faces@[t]),
            forall|t1: int, t2: int|
                0 <= t1 < t2 < self.faces.0@.len() ==> #[trigger] self.faces.0@[t1] != #[trigger] self.faces.0@[t2],
    {
        lemma_face_list_len(self.dimensions as nat);
        lemma_faces_are_squares(self.dimensions as nat);
        lemma_faces_distinct(self.dimensions as nat);
        assert forall|t1: int, t2: int|
            0 <= t1 < t2 < self.faces.0@.len() implies #[trigger] self.faces.0@[t1] != #[trigger] self.faces.0@[t2] by {
            assert(self.faces@[t1] != self.faces@[t2]);
        }
        assert(self.faces@.len() == self.faces.0@.len());
    }

    /// Number of `m`-dimensional faces of the cube (`m = 0` vertices, `m = 1`
    /// edges, `m = 2` squares).
    pub fn face_count(&self, m: usize) -> (r: usize)
        requires
            self.wf(),
            m <= self.dimensions,
        ensures
            r == pow2((self.dimensions - m) as nat) * binomial(self.dimensions as nat, m as nat),
    {
        Self::_face_count(self.dimensions, m)
    }

    /// Number of `m`-dimensional faces of the n-cube, `2^(n-m) * C(n, m)`.
    fn _face_count(n: usize, m: usize) -> (r: usize)
        requires
            valid_dimension(n as nat),
            m <= n,
        ensures
            r == pow2((n - m) as nat) * binomial(n as nat, m as nat),
    {
        proof {
            crate::math::lemma_factorial_split(n as nat, m as nat);
            crate::math::lemma_factorial_le_9(n as nat);
            vstd::arithmetic::power2::lemma2_to64();
            crate::math::lemma_binomial_le_factorial(n as nat, m as nat);
            vstd::arithmetic::power2::lemma_pow2_strictly_increases((n - m) as nat, 10);
            assert(pow2((n - m) as nat) * binomial(n as nat, m as nat) <= 1024 * 362880) by (nonlinear_arith)
                requires
                    pow2((n - m) as nat) <= 1024,
                    binomial(n as nat, m as nat) <= 362880,
            ;
        }
        power_of_two(n - m) * n.permute(m)
    }

    /// The `2^n` vertices in index order.
    fn _vertices(n: usize) -> (r: NVertices)
        requires
            valid_dimension(n as nat),
        ensures
            r.is_cube(n as nat),
    {
        let v_count = Self::_face_count(n, 0);
        assert(binomial(n as nat, 0) == 1);
        assert(((n - 0) as nat) == n as nat);
        assert(pow2(n as nat) * 1 == pow2(n as nat));
        let mut vertices: Vec<Vec<i8>> = Vec::new();
        let mut i: usize = 0;
        while i < v_count
            invariant
                valid_dimension(n as nat),
                v_count == pow2(n as nat),
                i <= v_count,
                vertices@.len() == i,
                forall|t: int| 0 <= t < i ==> #[trigger] vertices@[t]@ == vertex(n as nat, t as nat),
            decreases v_count - i,
        {
            let mut coordinates: Vec<i8> = Vec::new();
            let mut j: usize = 0;
            while j < n
                invariant
                    valid_dimension(n as nat),
                    j <= n,
                    coordinates@.len() == j,
                    forall|d: int| 0 <= d < j ==> #[trigger] coordinates@[d] == sign(i as nat, d as nat),
                decreases n - j,
            {
                proof {
                    vstd::arithmetic::power2::lemma2_to64();
                    vstd::arithmetic::power2::lemma_pow2_strictly_increases(j as nat, 10);
                }
                let direction: i8 = if (i / power_of_two(j)) % 2 == 0 {
                    1
                } else {
                    -1
                };
                coordinates.push(direction);
                j = j + 1;
            }
            assert(coordinates@ == vertex(n as nat, i as nat));
            vertices.push(coordinates);
            i = i + 1;
        }
        NVertices(vertices)
    }

    /// The triangulated square faces, two triangles per 2-face. For each pair
    /// of axes `a < b`, the vertices with positive sign on both are the first
    /// corners of the squares that the pair spans, so each square is met once
    /// and the same rule serves every dimension.
    fn _faces(vertices: &NVertices, n: usize) -> (r: NFaces)
        requires
            valid_dimension(n as nat),
            vertices.is_cube(n as nat),
        ensures
            r@ == face_list(n as nat),
    {
        let planes = usize::pair_permutations(0, n - 1);
        let ghost all_planes = pairs_in(0, n as nat);
        assert(((n - 1) as usize).as_nat() + 1 == n as nat);
        assert forall|t: int| 0 <= t < planes@.len() implies (#[trigger] planes@[t].0 as nat, planes@[t].1 as nat) == all_planes[t] by {
            assert((planes@[t].0.as_nat(), planes@[t].1.as_nat()) == all_planes[t]);
        }
        let count = vertices.0.len();
        proof {
            vstd::arithmetic::power2::lemma2_to64();
            vstd::arithmetic::power2::lemma_pow2_strictly_increases(n as nat, 10);
        }
        let mut faces: Vec<(usize, usize, usize)> = Vec::new();
        let mut p: usize = 0;
        while p < planes.len()
            invariant
                valid_dimension(n as nat),
                vertices.is_cube(n as nat),
                count == pow2(n as nat),
                count <= 512,
                planes@.len() == all_planes.len(),
                all_planes == pairs_in(0, n as nat),
                forall|t: int| 0 <= t < planes@.len() ==> (#[trigger] planes@[t].0 as nat, planes@[t].1 as nat) == all_planes[t],
                p <= planes@.len(),
                NFaces(faces)@ == plane_faces(n as nat, all_planes.take(p as int)),
            decreases planes@.len() - p,
        {
            let (a, b) = planes[p];
            proof {
                assert((planes@[p as int].0 as nat, planes@[p as int].1 as nat) == all_planes[p as int]);
                crate::math::lemma_pairs_in_bounds(0, n as nat, p as int);
                lemma_pow2_le(a as nat, 8);
                lemma_pow2_le(b as nat, 8);
                vstd::arithmetic::power2::lemma2_to64();
            }
            let pa = power_of_two(a);
            let pb = power_of_two(b);
            let ghost before = NFaces(faces)@;
            let mut i: usize = 0;
            while i < count
                invariant
                    valid_dimension(n as nat),
                    vertices.is_cube(n as nat),
                    count == pow2(n as nat),
                    count <= 512,
                    a < b < n,
                    pa == pow2(a as nat),
                    pb == pow2(b as nat),
                    pa <= 256,
                    pb <= 256,
                    i <= count,
                    NFaces(faces)@ == before + group_faces(a as nat, b as nat, i as nat),
                decreases count - i,
            {
                assert(vertices.0@[i as int]@ == vertex(n as nat, i as nat));
                let ghost old_view = NFaces(faces)@;
                if vertices.0[i][a] > 0 && vertices.0[i][b] > 0 {
                    faces.push((i, i + pa, i + pb));
                    faces.push((i + pa + pb, i + pb, i + pa));
                    assert(NFaces(faces)@ =~= old_view + square_triangles(i as nat, a as nat, b as nat));
                } else {
                    assert(NFaces(faces)@ =~= old_view);
                }
                assert(group_faces(a as nat, b as nat, (i + 1) as nat) =~= group_faces(a as nat, b as nat, i as nat) + if in_group(i as nat, a as nat, b as nat) {
                    square_triangles(i as nat, a as nat, b as nat)
                } else {
                    Seq::empty()
                });
                i = i + 1;
            }
            proof {
                let taken = all_planes.take(p + 1);
                assert(taken.drop_last() =~= all_planes.take(p as int));
                assert(taken.last() == all_planes[p as int]);
            }
            p = p + 1;
        }
        proof {
            assert(all_planes.take(p as int) =~= all_planes);
        }
        NFaces(faces)
    }

    /// Every pair of vertices that differ in exactly one coordinate, in
    /// lexicographic order of their indices.
    fn _edges(vertices: &NVertices, n: usize) -> (r: NEdges)
        requires
            forall|i: int| 0 <= i < vertices.0@.len() ==> #[trigger] vertices.0@[i]@.len() == n,
            n >= 1,
        ensures
            is_edge_list(r.0@, vertices@, n as nat),
            r.0@.len() == edge_count(vertices@, n as nat, vertices@.len() as int),
    {
        let ghost vs = vertices@;
        let len = vertices.0.len();
        let mut edges: Vec<(usize, usize)> = Vec::new();
        let mut i: usize = 0;
        while i < len
            invariant
                n >= 1,
                len == vs.len(),
                vs == vertices@,
                i <= len,
                forall|k: int| 0 <= k < len ==> #[trigger] vertices.0@[k]@.len() == n,
                forall|t: int| 0 <= t < edges@.len() ==> is_edge(vs, n as nat, #[trigger] edges@[t].0 as int, edges@[t].1 as int),
                forall|t: int| 0 <= t < edges@.len() ==> #[trigger] edges@[t].0 < i,
                forall|t1: int, t2: int| 0 <= t1 < t2 < edges@.len() ==> pair_lt(#[trigger] edges@[t1], #[trigger] edges@[t2]),
                forall|p: int, q: int| #[trigger] is_edge(vs, n as nat, p, q) && p < i ==> edges@.contains((p as usize, q as usize)),
                edges@.len() == edge_count(vs, n as nat, i as int),
            decreases len - i,
        {
            let vertex_a = &vertices.0[i];
            let mut j: usize = i + 1;
            while j < len
                invariant
                    n >= 1,
                    len == vs.len(),
                    vs == vertices@,
                    i < len,
                    i + 1 <= j <= len,
                    vertex_a@ == vs[i as int],
                    forall|k: int| 0 <= k < len ==> #[trigger] vertices.0@[k]@.len() == n,
                    forall|t: int| 0 <= t < edges@.len() ==> is_edge(vs, n as nat, #[trigger] edges@[t].0 as int, edges@[t].1 as int),
                    forall|t: int| 0 <= t < edges@.len() ==> pair_lt(#[trigger] edges@[t], (i, j)),
                    forall|t1: int, t2: int| 0 <= t1 < t2 < edges@.len() ==> pair_lt(#[trigger] edges@[t1], #[trigger] edges@[t2]),
                    forall|p: int, q: int| #[trigger] is_edge(vs, n as nat, p, q) && (p < i || (p == i && q < j)) ==> edges@.contains((p as usize, q as usize)),
                    edges@.len() == edge_count(vs, n as nat, i as int) + row_count(vs, n as nat, i as int, j as int),
                decreases len - j,
            {
                let vertex_b = &vertices.0[j];
                let shared = shared_dimensions(&[vertex_a, vertex_b]);
                proof {
                    assert(vertex_b@ == vs[j as int]);
                    let pts = seq![vertex_a, vertex_b].map_values(|p: &Vec<i8>| p@);
                    assert(pts =~= seq![vs[i as int], vs[j as int]]);
                    lemma_shared_plus_differing(vs[i as int], vs[j as int], n as nat);
                }
                if shared.len() == n - 1 {
                    let ghost old_edges = edges@;
                    edges.push((i, j));
                    proof {
                        assert forall|p: int, q: int| #[trigger] is_edge(vs, n as nat, p, q) && (p < i || (p == i && q < j + 1)) implies edges@.contains((p as usize, q as usize)) by {
                            if p == i && q == j {
                                assert(edges@[edges@.len() - 1] == (p as usize, q as usize));
                            } else {
                                assert(old_edges.contains((p as usize, q as usize)));
                                let w = choose|w: int| 0 <= w < old_edges.len() && old_edges[w] == (p as usize, q as usize);
                                assert(edges@[w] == (p as usize, q as usize));
                            }
                        }
                    }
                } else {
                    proof {
                        assert forall|p: int, q: int| #[trigger] is_edge(vs, n as nat, p, q) && (p < i || (p == i && q < j + 1)) implies edges@.contains((p as usize, q as usize)) by {
                            if p == i && q == j {
                                assert(differing(vs[i as int], vs[j as int], n as nat) != 1);
                            }
                        }
                    }
                }
                j = j + 1;
            }
            i = i + 1;
        }
        NEdges(edges)
    }
}

} // verus!
