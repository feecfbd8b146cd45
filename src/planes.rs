//! Planes of rotation of the n-cube and a map that holds one value per plane.
//!
//! A plane is an unordered pair of distinct axes, keyed canonically as
//! `(a, b)` with `a < b`. Every plane of the dimension has an entry, stored
//! in the lexicographic order of the keys.

use vstd::prelude::*;
use crate::math::{pairs_in, lemma_pairs_in_bounds, ExtendedMathOps};
use crate::topology::valid_dimension;

verus! {

/// `p` is a plane of the n-cube in canonical form.
pub open spec fn is_plane(n: nat, p: (nat, nat)) -> bool {
    p.0 < p.1 < n
}

/// The canonical key of the plane spanned by axes `a` and `b`.
pub open spec fn plane_key(a: nat, b: nat) -> (nat, nat) {
    if a < b {
        (a, b)
    } else {
        (b, a)
    }
}

/// Number of planes whose first axis is below `a`.
pub open spec fn row_start(n: nat, a: nat) -> nat
    decreases a,
{
    if a == 0 {
        0
    } else {
        row_start(n, (a - 1) as nat) + (n - a) as nat
    }
}

/// Position of plane `p` in the lexicographic order of the planes.
pub open spec fn plane_index(n: nat, p: (nat, nat)) -> nat {
    row_start(n, p.0) + (p.1 - p.0 - 1) as nat
}

proof fn lemma_row_start_monotonic(n: nat, a: nat, c: nat)
    requires
        a <= c,
    ensures
        row_start(n, a) <= row_start(n, c),
    decreases c - a,
{
    if a < c {
        lemma_row_start_monotonic(n, a, (c - 1) as nat);
    }
}

/// Plane `(a, b)` stands at `plane_index` in the enumeration of the planes.
proof fn lemma_plane_at_index(n: nat, from: nat, p: (nat, nat))
    requires
        from <= p.0 < p.1 < n,
    ensures
        row_start(n, from) <= row_start(n, p.0),
        plane_index(n, p) - row_start(n, from) < pairs_in(from, n).len(),
        pairs_in(from, n)[plane_index(n, p) - row_start(n, from)] == p,
    decreases p.0 - from,
{
    lemma_row_start_monotonic(n, from, p.0);
    let row = Seq::new((n - from - 1) as nat, |k: int| (from, (from + 1 + k) as nat));
    assert(pairs_in(from, n) == row + pairs_in(from + 1, n));
    if p.0 > from {
        lemma_plane_at_index(n, from + 1, p);
        assert(row_start(n, from + 1) == row_start(n, from) + (n - from - 1) as nat);
    }
}

/// The plane at position `t` of the enumeration has `plane_index` `t`.
proof fn lemma_index_of_plane(n: nat, from: nat, t: int)
    requires
        from <= n,
        0 <= t < pairs_in(from, n).len(),
    ensures
        row_start(n, from) <= row_start(n, pairs_in(from, n)[t].0),
        plane_index(n, pairs_in(from, n)[t]) - row_start(n, from) == t,
    decreases n - from,
{
    let row_len = (n - from - 1) as nat;
    let row = Seq::new(row_len, |k: int| (from, (from + 1 + k) as nat));
    assert(pairs_in(from, n) == row + pairs_in(from + 1, n));
    lemma_pairs_in_bounds(from, n, t);
    if t >= row_len {
        lemma_index_of_plane(n, from + 1, t - row_len);
        assert(pairs_in(from, n)[t] == pairs_in(from + 1, n)[t - row_len]);
        assert(row_start(n, from + 1) == row_start(n, from) + row_len);
    }
}

/// Position of plane `(a, b)`, `a < b < n`, among the planes in lexicographic
/// order.
fn index_of_plane(n: usize, a: usize, b: usize) -> (r: usize)
    requires
        a < b < n <= 9,
    ensures
        r == plane_index(n as nat, (a as nat, b as nat)),
        r < pairs_in(0, n as nat).len(),
        pairs_in(0, n as nat)[r as int] == (a as nat, b as nat),
{
    proof {
        lemma_plane_at_index(n as nat, 0, (a as nat, b as nat));
    }
    let mut start: usize = 0;
    let mut i: usize = 0;
    while i < a
        invariant
            i <= a < b < n <= 9,
            start == row_start(n as nat, i as nat),
            start <= i * 9,
        decreases a - i,
    {
        i = i + 1;
        start = start + (n - i);
    }
    start + (b - a - 1)
}

/// Why a set of plane entries was refused.
#[derive(Debug, Clone, Copy, PartialEq, Eq)]
pub enum PlaneError {
    /// The dimension lies outside the supported range.
    DimensionOutOfRange,
    /// The entry at `index` names an axis twice or an axis beyond the
    /// dimension.
    InvalidPlane { index: usize },
}

/// One value for each plane of rotation of an n-cube.
#[derive(Debug, Clone)]
pub struct PlaneMap<V> {
    dimensions: usize,
    values: Vec<V>,
}

/// The map after applying `entries` to `base` in order; later entries for a
/// plane replace earlier ones.
pub open spec fn apply_entries<V>(base: Map<(nat, nat), V>, entries: Seq<(usize, usize, V)>) -> Map<
    (nat, nat),
    V,
>
    decreases entries.len(),
{
    if entries.len() == 0 {
        base
    } else {
        let e = entries.last();
        apply_entries(base, entries.drop_last()).insert(plane_key(e.0 as nat, e.1 as nat), e.2)
    }
}

/// Every plane of dimension `n` mapped to `v`.
pub open spec fn uniform_map<V>(n: nat, v: V) -> Map<(nat, nat), V> {
    Map::new(|p: (nat, nat)| is_plane(n, p), |p: (nat, nat)| v)
}

/// Whether an entry names a plane of dimension `n`: two distinct axes below `n`.
pub open spec fn is_valid_entry<V>(n: nat, e: (usize, usize, V)) -> bool {
    e.0 != e.1 && e.0 < n && e.1 < n
}

impl<V: Copy> PlaneMap<V> {
    /// The dimension of the cube whose planes are mapped.
    pub closed spec fn dim(&self) -> nat {
        self.dimensions as nat
    }

    /// The value of each plane, by canonical key.
    pub closed spec fn view(&self) -> Map<(nat, nat), V> {
        Map::new(
            |p: (nat, nat)| is_plane(self.dimensions as nat, p),
            |p: (nat, nat)| self.values@[plane_index(self.dimensions as nat, p) as int],
        )
    }

    pub closed spec fn wf(&self) -> bool {
        &&& valid_dimension(self.dimensions as nat)
        &&& self.values@.len() == pairs_in(0, self.dimensions as nat).len()
    }

    /// The entries in lexicographic order of the planes.
    pub open spec fn entry_seq(&self) -> Seq<(usize, usize, V)> {
        Seq::new(
            pairs_in(0, self.dim()).len(),
            |t: int|
                (
                    pairs_in(0, self.dim())[t].0 as usize,
                    pairs_in(0, self.dim())[t].1 as usize,
                    self@[pairs_in(0, self.dim())[t]],
                ),
        )
    }

    /// The map for dimension `n` in which each plane keeps its value here, if
    /// it has one, and has `default` otherwise.
    pub open spec fn resized(&self, n: nat, default: V) -> Map<(nat, nat), V> {
        Map::new(
            |p: (nat, nat)| is_plane(n, p),
            |p: (nat, nat)|
                if is_plane(self.dim(), p) {
                    self@[p]
                } else {
                    default
                },
        )
    }

    /// Every plane of dimension `n` mapped to `default`.
    pub fn new(n: usize, default: V) -> (r: Self)
        requires
            valid_dimension(n as nat),
        ensures
            r.wf(),
            r.dim() == n,
            r@ == uniform_map(n as nat, default),
    {
        let count = usize::pair_permutations(0, n - 1).len();
        let mut values: Vec<V> = Vec::new();
        let mut t: usize = 0;
        while t < count
            invariant
                t <= count,
                values@.len() == t,
                forall|k: int| 0 <= k < t ==> #[trigger] values@[k] == default,
            decreases count - t,
        {
            values.push(default);
            t = t + 1;
        }
        assert(((n - 1) as usize).as_nat() + 1 == n as nat);
        let r = PlaneMap { dimensions: n, values };
        proof {
            assert forall|p: (nat, nat)| is_plane(n as nat, p) implies #[trigger] r@[p] == default by {
                lemma_plane_at_index(n as nat, 0, p);
            }
            assert(r@ =~= uniform_map(n as nat, default));
        }
        r
    }

    /// The dimension of the cube whose planes are mapped.
    pub fn dimensions(&self) -> (r: usize)
        ensures
            r == self.dim(),
    {
        self.dimensions
    }

    /// The value of the plane spanned by axes `a` and `b`, in either order;
    /// `None` where they do not span a plane of the cube.
    pub fn get(&self, a: usize, b: usize) -> (r: Option<V>)
        requires
            self.wf(),
        ensures
            r == if a != b && a < self.dim() && b < self.dim() {
                Some(self@[plane_key(a as nat, b as nat)])
            } else {
                None::<V>
            },
    {
        if a == b || a >= self.dimensions || b >= self.dimensions {
            return None;
        }
        let (lo, hi) = if a < b {
            (a, b)
        } else {
            (b, a)
        };
        let t = index_of_plane(self.dimensions, lo, hi);
        Some(self.values[t])
    }

    /// Sets the value of the plane spanned by axes `a` and `b`, in either
    /// order. Returns whether they span a plane of the cube; if not, nothing
    /// changes.
    pub fn set(&mut self, a: usize, b: usize, v: V) -> (r: bool)
        requires
            old(self).wf(),
        ensures
            final(self).wf(),
            final(self).dim() == old(self).dim(),
            r == (a != b && a < old(self).dim() && b < old(self).dim()),
            final(self)@ == if r {
                old(self)@.insert(plane_key(a as nat, b as nat), v)
            } else {
                old(self)@
            },
    {
        if a == b || a >= self.dimensions || b >= self.dimensions {
            return false;
        }
        let (lo, hi) = if a < b {
            (a, b)
        } else {
            (b, a)
        };
        let t = index_of_plane(self.dimensions, lo, hi);
        let ghost before = self@;
        self.values.set(t, v);
        proof {
            let n = self.dimensions as nat;
            let key = (lo as nat, hi as nat);
            assert forall|p: (nat, nat)| is_plane(n, p) implies #[trigger] self@[p] == before.insert(key, v)[p] by {
                lemma_plane_at_index(n, 0, p);
                if p != key {
                    assert(plane_index(n, p) != plane_index(n, key));
                }
            }
            assert(self@ =~= before.insert(key, v));
        }
        true
    }

    /// The planes in lexicographic order.
    pub fn planes(&self) -> (r: Vec<(usize, usize)>)
        requires
            self.wf(),
        ensures
            r@.len() == pairs_in(0, self.dim()).len(),
            forall|t: int| 0 <= t < r@.len() ==> (#[trigger] r@[t].0 as nat, r@[t].1 as nat) == pairs_in(0, self.dim())[t],
    {
        let r = usize::pair_permutations(0, self.dimensions - 1);
        assert(((self.dimensions - 1) as usize).as_nat() + 1 == self.dim());
        assert forall|t: int| 0 <= t < r@.len() implies (#[trigger] r@[t].0 as nat, r@[t].1 as nat) == pairs_in(0, self.dim())[t] by {
            assert((r@[t].0.as_nat(), r@[t].1.as_nat()) == pairs_in(0, self.dim())[t]);
        }
        r
    }

    /// Every plane with its value, `(a, b, value)` with `a < b`, in
    /// lexicographic order of the planes.
    pub fn entries(&self) -> (r: Vec<(usize, usize, V)>)
        requires
            self.wf(),
        ensures
            r@ == self.entry_seq(),
    {
        let planes = self.planes();
        let mut out: Vec<(usize, usize, V)> = Vec::new();
        let mut t: usize = 0;
        while t < planes.len()
            invariant
                self.wf(),
                planes@.len() == pairs_in(0, self.dim()).len(),
                forall|k: int| 0 <= k < planes@.len() ==> (#[trigger] planes@[k].0 as nat, planes@[k].1 as nat) == pairs_in(0, self.dim())[k],
                t <= planes@.len(),
                out@.len() == t,
                forall|k: int| 0 <= k < t ==> #[trigger] out@[k] == self.entry_seq()[k],
            decreases planes@.len() - t,
        {
            let (a, b) = planes[t];
            proof {
                assert((planes@[t as int].0 as nat, planes@[t as int].1 as nat) == pairs_in(0, self.dim())[t as int]);
                lemma_index_of_plane(self.dim(), 0, t as int);
                lemma_pairs_in_bounds(0, self.dim(), t as int);
            }
            out.push((a, b, self.values[t]));
            t = t + 1;
        }
        assert(out@ =~= self.entry_seq());
        out
    }

    /// The map built from `entries` over `default`, each `(a, b, value)`
    /// setting the plane spanned by `a` and `b`; a later entry for a plane
    /// replaces an earlier one. Refused when the dimension is unsupported or
    /// an entry names no plane of the cube.
    pub fn from_entries(n: usize, entries: &Vec<(usize, usize, V)>, default: V) -> (r: Result<Self, PlaneError>)
        ensures
            match r {
                Ok(m) => {
                    &&& valid_dimension(n as nat)
                    &&& forall|t: int| 0 <= t < entries@.len() ==> is_valid_entry(n as nat, #[trigger] entries@[t])
                    &&& m.wf()
                    &&& m.dim() == n
                    &&& m@ == apply_entries(uniform_map(n as nat, default), entries@)
                },
                Err(PlaneError::DimensionOutOfRange) => !valid_dimension(n as nat),
                Err(PlaneError::InvalidPlane { index }) => {
                    &&& valid_dimension(n as nat)
                    &&& index < entries@.len()
                    &&& !is_valid_entry(n as nat, entries@[index as int])
                    &&& forall|t: int| 0 <= t < index ==> is_valid_entry(n as nat, #[trigger] entries@[t])
                },
            },
    {
        if n < 3 || n > 9 {
            return Err(PlaneError::DimensionOutOfRange);
        }
        let mut m = Self::new(n, default);
        let mut t: usize = 0;
        while t < entries.len()
            invariant
                valid_dimension(n as nat),
                t <= entries@.len(),
                m.wf(),
                m.dim() == n,
                forall|k: int| 0 <= k < t ==> is_valid_entry(n as nat, #[trigger] entries@[k]),
                m@ == apply_entries(uniform_map(n as nat, default), entries@.take(t as int)),
            decreases entries@.len() - t,
        {
            let (a, b, v) = entries[t];
            if !m.set(a, b, v) {
                return Err(PlaneError::InvalidPlane { index: t });
            }
            proof {
                let taken = entries@.take(t + 1);
                assert(taken.drop_last() =~= entries@.take(t as int));
                assert(taken.last() == entries@[t as int]);
            }
            t = t + 1;
        }
        assert(entries@.take(t as int) =~= entries@);
        Ok(m)
    }

    /// The map for dimension `n`: each plane keeps its value where it is also
    /// a plane of this map, and gets `default` otherwise.
    pub fn resize(&self, n: usize, default: V) -> (r: Self)
        requires
            self.wf(),
            valid_dimension(n as nat),
        ensures
            r.wf(),
            r.dim() == n,
            r@ == self.resized(n as nat, default),
    {
        let mut r = Self::new(n, default);
        let planes = r.planes();
        let ghost target = self.resized(n as nat, default);
        let mut t: usize = 0;
        while t < planes.len()
            invariant
                self.wf(),
                valid_dimension(n as nat),
                r.wf(),
                r.dim() == n,
                planes@.len() == pairs_in(0, n as nat).len(),
                forall|k: int| 0 <= k < planes@.len() ==> (#[trigger] planes@[k].0 as nat, planes@[k].1 as nat) == pairs_in(0, n as nat)[k],
                t <= planes@.len(),
                target == self.resized(n as nat, default),
                r@.dom() == target.dom(),
                forall|p: (nat, nat)|
                    #[trigger] is_plane(n as nat, p) ==> r@[p] == if plane_index(n as nat, p) < t {
                        target[p]
                    } else {
                        default
                    },
            decreases planes@.len() - t,
        {
            let (a, b) = planes[t];
            proof {
                assert((planes@[t as int].0 as nat, planes@[t as int].1 as nat) == pairs_in(0, n as nat)[t as int]);
                lemma_index_of_plane(n as nat, 0, t as int);
                lemma_pairs_in_bounds(0, n as nat, t as int);
            }
            let ghost before = r@;
            let got = self.get(a, b);
            if let Some(v) = got {
                r.set(a, b, v);
            }
            proof {
                let key = (a as nat, b as nat);
                assert(plane_key(a as nat, b as nat) == key);
                if is_plane(self.dim(), key) {
                    assert(r@ == before.insert(key, self@[key]));
                } else {
                    assert(r@ == before);
                }
                assert forall|p: (nat, nat)| #[trigger] is_plane(n as nat, p) implies r@[p] == if plane_index(n as nat, p) < t + 1 {
                    target[p]
                } else {
                    default
                } by {
                    lemma_plane_at_index(n as nat, 0, p);
                    lemma_plane_at_index(n as nat, 0, key);
                    assert(target.dom().contains(p));
                    assert(target[p] == if is_plane(self.dim(), p) {
                        self@[p]
                    } else {
                        default
                    });
                    assert(before[p] == if plane_index(n as nat, p) < t {
                        target[p]
                    } else {
                        default
                    });
                    if plane_index(n as nat, p) == t {
                        assert(p == key);
                        if is_plane(self.dim(), key) {
                            assert(r@[p] == self@[key]);
                            assert(target[p] == self@[p]);
                        } else {
                            assert(r@[p] == before[p]);
                            assert(target[p] == default);
                        }
                    } else {
                        assert(p != key);
                        assert(r@[p] == before[p]);
                    }
                }
            }
            t = t + 1;
        }
        proof {
            assert forall|p: (nat, nat)| #[trigger] is_plane(n as nat, p) implies r@[p] == target[p] by {
                lemma_plane_at_index(n as nat, 0, p);
            }
            assert(r@ =~= target);
        }
        r
    }
}

/// Applying the first `k` entries of a map's export to the uniform map sets
/// exactly the planes of index below `k`.
proof fn lemma_apply_prefix<V: Copy>(m: PlaneMap<V>, d: V, k: int)
    requires
        m.wf(),
        0 <= k <= m.entry_seq().len(),
    ensures
        apply_entries(uniform_map(m.dim(), d), m.entry_seq().take(k)) == Map::new(
            |p: (nat, nat)| is_plane(m.dim(), p),
            |p: (nat, nat)|
                if plane_index(m.dim(), p) < k {
                    m@[p]
                } else {
                    d
                },
        ),
    decreases k,
{
    let n = m.dim();
    let target = Map::new(
        |p: (nat, nat)| is_plane(n, p),
        |p: (nat, nat)|
            if plane_index(n, p) < k {
                m@[p]
            } else {
                d
            },
    );
    if k == 0 {
        assert(m.entry_seq().take(0) =~= Seq::<(usize, usize, V)>::empty());
        assert(uniform_map(n, d) =~= target);
    } else {
        lemma_apply_prefix(m, d, k - 1);
        let taken = m.entry_seq().take(k);
        assert(taken.drop_last() =~= m.entry_seq().take(k - 1));
        let e = taken.last();
        let q = pairs_in(0, n)[k - 1];
        lemma_pairs_in_bounds(0, n, k - 1);
        lemma_index_of_plane(n, 0, k - 1);
        assert(e == (q.0 as usize, q.1 as usize, m@[q]));
        assert(plane_key(e.0 as nat, e.1 as nat) == q);
        let prev = apply_entries(uniform_map(n, d), m.entry_seq().take(k - 1));
        assert forall|p: (nat, nat)| #[trigger] is_plane(n, p) implies prev.insert(q, m@[q])[p] == target[p] by {
            lemma_plane_at_index(n, 0, p);
        }
        assert(prev.insert(q, m@[q]) =~= target);
    }
}

/// Exporting a map's entries and building a map from them over any default
/// gives back the same map: every exported entry names a plane, and each
/// plane's value is reproduced.
pub proof fn lemma_entries_round_trip<V: Copy>(m: PlaneMap<V>, d: V)
    requires
        m.wf(),
    ensures
        forall|t: int| 0 <= t < m.entry_seq().len() ==> is_valid_entry(m.dim(), #[trigger] m.entry_seq()[t]),
        apply_entries(uniform_map(m.dim(), d), m.entry_seq()) == m@,
{
    let n = m.dim();
    assert forall|t: int| 0 <= t < m.entry_seq().len() implies is_valid_entry(n, #[trigger] m.entry_seq()[t]) by {
        lemma_pairs_in_bounds(0, n, t);
    }
    lemma_apply_prefix(m, d, m.entry_seq().len() as int);
    assert(m.entry_seq().take(m.entry_seq().len() as int) =~= m.entry_seq());
    assert forall|p: (nat, nat)| #[trigger] is_plane(n, p) implies plane_index(n, p) < m.entry_seq().len() by {
        lemma_plane_at_index(n, 0, p);
    }
    let full = Map::new(
        |p: (nat, nat)| is_plane(n, p),
        |p: (nat, nat)|
            if plane_index(n, p) < m.entry_seq().len() {
                m@[p]
            } else {
                d
            },
    );
    assert(full =~= m@);
}

} // verus!
