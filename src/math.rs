//! Counting helpers: factorials, binomial coefficients and ordered
//! enumerations of index pairs and quadruples.

use vstd::prelude::*;

verus! {

/// n! as a mathematical integer.
pub open spec fn factorial(n: nat) -> nat
    decreases n,
{
    if n == 0 {
        1
    } else {
        n * factorial((n - 1) as nat)
    }
}

/// The binomial coefficient C(n, k), by Pascal's rule.
pub open spec fn binomial(n: nat, k: nat) -> nat
    decreases n,
{
    if k == 0 {
        1
    } else if n == 0 {
        0
    } else {
        binomial((n - 1) as nat, (k - 1) as nat) + binomial((n - 1) as nat, k)
    }
}

/// The pairs `(i, j)` with `from <= i < j < to`, in lexicographic order.
pub open spec fn pairs_in(from: nat, to: nat) -> Seq<(nat, nat)>
    decreases to - from,
{
    if from >= to {
        Seq::empty()
    } else {
        Seq::new((to - from - 1) as nat, |k: int| (from, (from + 1 + k) as nat)) + pairs_in(
            from + 1,
            to,
        )
    }
}

/// Each pair of `pairs_in(from, to)` is strictly increasing and in range.
pub proof fn lemma_pairs_in_bounds(from: nat, to: nat, t: int)
    requires
        0 <= t < pairs_in(from, to).len(),
    ensures
        from <= pairs_in(from, to)[t].0 < pairs_in(from, to)[t].1 < to,
    decreases to - from,
{
    if from < to {
        let row_len = (to - from - 1) as nat;
        if t >= row_len {
            lemma_pairs_in_bounds(from + 1, to, t - row_len);
        }
    }
}

/// The pairs of `pairs_in(from, to)` are pairwise distinct.
pub proof fn lemma_pairs_in_distinct(from: nat, to: nat)
    ensures
        forall|t1: int, t2: int|
            0 <= t1 < t2 < pairs_in(from, to).len() ==> #[trigger] pairs_in(from, to)[t1]
                != #[trigger] pairs_in(from, to)[t2],
    decreases to - from,
{
    if from < to {
        lemma_pairs_in_distinct(from + 1, to);
        let row_len = (to - from - 1) as nat;
        let row = Seq::new(row_len, |k: int| (from, (from + 1 + k) as nat));
        let rest = pairs_in(from + 1, to);
        let all = pairs_in(from, to);
        assert(all == row + rest);
        assert forall|t1: int, t2: int| 0 <= t1 < t2 < all.len() implies #[trigger] all[t1] != #[trigger] all[t2] by {
            if t2 >= row_len {
                assert(all[t2] == rest[t2 - row_len]);
                lemma_pairs_in_bounds(from + 1, to, t2 - row_len);
                if t1 >= row_len {
                    assert(all[t1] == rest[t1 - row_len]);
                }
            }
        }
    }
}

pub proof fn lemma_factorial_positive(n: nat)
    ensures
        factorial(n) >= 1,
    decreases n,
{
    if n > 0 {
        lemma_factorial_positive((n - 1) as nat);
        assert(n * factorial((n - 1) as nat) >= 1) by (nonlinear_arith)
            requires
                n >= 1,
                factorial((n - 1) as nat) >= 1,
        ;
    }
}

pub proof fn lemma_factorial_monotonic(m: nat, n: nat)
    requires
        m <= n,
    ensures
        factorial(m) <= factorial(n),
    decreases n - m,
{
    if m < n {
        lemma_factorial_monotonic(m, (n - 1) as nat);
        lemma_factorial_positive((n - 1) as nat);
        assert(factorial((n - 1) as nat) <= n * factorial((n - 1) as nat)) by (nonlinear_arith)
            requires
                n >= 1,
        ;
    }
}

pub proof fn lemma_binomial_out_of_range(n: nat, k: nat)
    requires
        k > n,
    ensures
        binomial(n, k) == 0,
    decreases n,
{
    if n > 0 {
        lemma_binomial_out_of_range((n - 1) as nat, (k - 1) as nat);
        lemma_binomial_out_of_range((n - 1) as nat, k);
    }
}

/// n! = C(n, k) * k! * (n - k)!
pub proof fn lemma_factorial_split(n: nat, k: nat)
    requires
        k <= n,
    ensures
        factorial(n) == binomial(n, k) * factorial(k) * factorial((n - k) as nat),
    decreases n,
{
    if k == 0 {
        assert(factorial(0) == 1);
        assert(binomial(n, 0) == 1);
        assert(1 * 1 * factorial(n) == factorial(n)) by (nonlinear_arith);
    } else if k == n {
        lemma_binomial_diagonal(n);
        assert(factorial(0) == 1);
        assert(1 * factorial(n) * 1 == factorial(n)) by (nonlinear_arith);
    } else {
        let m = (n - 1) as nat;
        lemma_factorial_split(m, (k - 1) as nat);
        lemma_factorial_split(m, k);
        let a = binomial(m, (k - 1) as nat);
        let b = binomial(m, k);
        let fk1 = factorial((k - 1) as nat);
        let fk = factorial(k);
        let fr = factorial((m - k) as nat);
        let fr1 = factorial((n - k) as nat);
        assert(fk == k * fk1);
        assert(fr1 == (n - k) * fr);
        assert(factorial(m) == a * fk1 * fr1);
        assert(factorial(m) == b * fk * fr);
        assert(factorial(n) == n * factorial(m));
        assert(binomial(n, k) == a + b);
        assert((a + b) * fk * fr1 == k * (a * fk1 * fr1) + (n - k) * (b * fk * fr))
            by (nonlinear_arith)
            requires
                fk == k * fk1,
                fr1 == (n - k) * fr,
        ;
        assert(k * factorial(m) + (n - k) * factorial(m) == n * factorial(m)) by (nonlinear_arith)
            requires
                k <= n,
        ;
        assert(factorial(n) == (a + b) * fk * fr1);
    }
}

pub proof fn lemma_factorial_le_9(n: nat)
    requires
        n <= 9,
    ensures
        factorial(n) <= 362880,
{
    lemma_factorial_monotonic(n, 9);
    assert(factorial(0) == 1);
    assert(factorial(1) == 1);
    assert(factorial(2) == 2);
    assert(factorial(3) == 6);
    assert(factorial(4) == 24);
    assert(factorial(5) == 120);
    assert(factorial(6) == 720);
    assert(factorial(7) == 5040);
    assert(factorial(8) == 40320);
    assert(factorial(9) == 362880);
}

pub proof fn lemma_binomial_le_factorial(n: nat, k: nat)
    requires
        k <= n,
    ensures
        binomial(n, k) <= factorial(n),
{
    lemma_factorial_split(n, k);
    lemma_factorial_positive(k);
    lemma_factorial_positive((n - k) as nat);
    let c = binomial(n, k);
    let f = factorial(k) * factorial((n - k) as nat);
    assert(f >= 1) by (nonlinear_arith)
        requires
            f == factorial(k) * factorial((n - k) as nat),
            factorial(k) >= 1,
            factorial((n - k) as nat) >= 1,
    ;
    assert(c <= c * f) by (nonlinear_arith)
        requires
            f >= 1,
    ;
    assert(c * factorial(k) * factorial((n - k) as nat) == c * f) by (nonlinear_arith)
        requires
            f == factorial(k) * factorial((n - k) as nat),
    ;
}

proof fn lemma_binomial_diagonal(n: nat)
    ensures
        binomial(n, n) == 1,
    decreases n,
{
    if n > 0 {
        lemma_binomial_diagonal((n - 1) as nat);
        lemma_binomial_out_of_range((n - 1) as nat, n);
    }
}

pub proof fn lemma_binomial_one(n: nat)
    ensures
        binomial(n, 1) == n,
    decreases n,
{
    if n > 0 {
        lemma_binomial_one((n - 1) as nat);
        assert(binomial((n - 1) as nat, 0) == 1);
        assert(binomial(n, 1) == binomial((n - 1) as nat, 0) + binomial((n - 1) as nat, 1));
    }
}

pub proof fn lemma_binomial_two(n: nat)
    ensures
        binomial(n, 2) == n * (n - 1) / 2,
    decreases n,
{
    if n > 0 {
        let m = (n - 1) as nat;
        lemma_binomial_two(m);
        lemma_binomial_one(m);
        assert(binomial(n, 2) == m + m * (m - 1) / 2);
        assert(m + m * (m - 1) / 2 == n * (n - 1) / 2) by (nonlinear_arith)
            requires
                m == n - 1,
                n >= 1,
        ;
    } else {
        assert(binomial(0, 2) == 0);
    }
}

/// There are C(to - from, 2) pairs in `pairs_in(from, to)`.
pub proof fn lemma_pairs_in_len(from: nat, to: nat)
    requires
        from <= to,
    ensures
        pairs_in(from, to).len() == binomial((to - from) as nat, 2),
    decreases to - from,
{
    if from == to {
        assert(binomial(0, 2) == 0);
    } else {
        lemma_pairs_in_len(from + 1, to);
        let m = (to - from) as nat;
        lemma_binomial_one((m - 1) as nat);
        assert(binomial(m, 2) == binomial((m - 1) as nat, 1) + binomial((m - 1) as nat, 2));
        assert((to - (from + 1)) as nat == (m - 1) as nat);
        let row = Seq::new((to - from - 1) as nat, |k: int| (from, (from + 1 + k) as nat));
        assert(pairs_in(from, to) == row + pairs_in(from + 1, to));
        assert(pairs_in(from, to).len() == (m - 1) + pairs_in(from + 1, to).len());
    }
}

/// The strictly increasing sequences of `k` indices in `[from, to)`, in
/// lexicographic order.
pub open spec fn combos(k: nat, from: nat, to: nat) -> Seq<Seq<nat>>
    decreases k, to - from,
{
    if k == 0 {
        seq![Seq::empty()]
    } else if from >= to {
        Seq::empty()
    } else {
        combos((k - 1) as nat, from + 1, to).map_values(|c: Seq<nat>| seq![from] + c) + combos(
            k,
            from + 1,
            to,
        )
    }
}

/// There are C(to - from, k) increasing sequences of `k` indices in
/// `[from, to)`.
pub proof fn lemma_combos_len(k: nat, from: nat, to: nat)
    requires
        from <= to,
    ensures
        combos(k, from, to).len() == binomial((to - from) as nat, k),
    decreases to - from,
{
    if k > 0 && from < to {
        lemma_combos_len((k - 1) as nat, from + 1, to);
        lemma_combos_len(k, from + 1, to);
        let m = (to - from) as nat;
        assert((to - (from + 1)) as nat == (m - 1) as nat);
        assert(binomial(m, k) == binomial((m - 1) as nat, (k - 1) as nat) + binomial((m - 1) as nat, k));
    }
}

/// The picks of `k` items of `s` at increasing indices in `[from, to)`, each
/// after `prefix`, in lexicographic order of the indices.
pub open spec fn picks<T>(s: Seq<T>, prefix: Seq<T>, k: nat, from: nat, to: nat) -> Seq<Seq<T>> {
    combos(k, from, to).map_values(|c: Seq<nat>| prefix + c.map_values(|x: nat| s[x as int]))
}

proof fn lemma_picks_split<T>(s: Seq<T>, prefix: Seq<T>, k: nat, from: nat, to: nat)
    requires
        k >= 1,
        from < to,
    ensures
        picks(s, prefix, k, from, to) == picks(s, prefix.push(s[from as int]), (k - 1) as nat, from + 1, to)
            + picks(s, prefix, k, from + 1, to),
{
    let f = |c: Seq<nat>| prefix + c.map_values(|x: nat| s[x as int]);
    let g = |c: Seq<nat>| prefix.push(s[from as int]) + c.map_values(|x: nat| s[x as int]);
    let head = combos((k - 1) as nat, from + 1, to);
    let lifted = head.map_values(|c: Seq<nat>| seq![from] + c);
    let tail = combos(k, from + 1, to);
    assert(combos(k, from, to) == lifted + tail);
    assert forall|t: int| 0 <= t < head.len() implies #[trigger] f(lifted[t]) == g(head[t]) by {
        let c = head[t];
        assert((seq![from] + c).map_values(|x: nat| s[x as int]) =~= seq![s[from as int]] + c.map_values(|x: nat| s[x as int]));
        assert(f(lifted[t]) =~= g(c));
    }
    assert((lifted + tail).map_values(f) =~= head.map_values(g) + tail.map_values(f));
}

/// Generation of every 4-combination of the items of a collection.
pub trait PermuteFour<T> {
    /// The items, in order.
    spec fn items(&self) -> Seq<T>;

    /// Every choice of four items at increasing positions, in lexicographic
    /// order of the positions.
    fn permute_four(&self) -> (r: Vec<[T; 4]>)
        ensures
            r@.len() == picks(self.items(), Seq::empty(), 4, 0, self.items().len()).len(),
            r@.len() == binomial(self.items().len(), 4),
            forall|t: int|
                0 <= t < r@.len() ==> #[trigger] r@[t]@ == picks(
                    self.items(),
                    Seq::empty(),
                    4,
                    0,
                    self.items().len(),
                )[t],
    ;
}

/// Appends to `out`, after `prefix`, every pick of `k` items of `s` at
/// increasing positions from `from` on.
fn collect_picks<T: Copy>(s: &Vec<T>, prefix: &mut Vec<T>, k: usize, from: usize, out: &mut Vec<[T; 4]>)
    requires
        1 <= k,
        old(prefix)@.len() + k == 4,
        from <= s@.len(),
    ensures
        final(prefix)@ == old(prefix)@,
        final(out)@.len() == old(out)@.len() + picks(s@, old(prefix)@, k as nat, from as nat, s@.len()).len(),
        forall|t: int| 0 <= t < old(out)@.len() ==> #[trigger] final(out)@[t] == old(out)@[t],
        forall|t: int|
            0 <= t < picks(s@, old(prefix)@, k as nat, from as nat, s@.len()).len() ==> #[trigger] final(out)@[old(out)@.len() + t]@
                == picks(s@, old(prefix)@, k as nat, from as nat, s@.len())[t],
    decreases k,
{
    let ghost pre = prefix@;
    let ghost start = out@;
    let ghost all = picks(s@, pre, k as nat, from as nat, s@.len());
    let mut x: usize = from;
    while x < s.len()
        invariant
            1 <= k,
            pre.len() + k == 4,
            from <= x <= s@.len(),
            prefix@ == pre,
            out@.len() >= start.len(),
            all == picks(s@, pre, k as nat, from as nat, s@.len()),
            out@.len() + picks(s@, pre, k as nat, x as nat, s@.len()).len() == start.len() + all.len(),
            forall|t: int| 0 <= t < start.len() ==> #[trigger] out@[t] == start[t],
            forall|t: int| 0 <= t < out@.len() - start.len() ==> #[trigger] out@[start.len() + t]@ == all[t],
            forall|t: int|
                0 <= t < picks(s@, pre, k as nat, x as nat, s@.len()).len() ==> all[out@.len() - start.len() + t]
                    == #[trigger] picks(s@, pre, k as nat, x as nat, s@.len())[t],
        decreases s@.len() - x,
    {
        proof {
            lemma_picks_split(s@, pre, k as nat, x as nat, s@.len());
        }
        let ghost here = picks(s@, pre.push(s@[x as int]), (k - 1) as nat, x as nat + 1, s@.len());
        let ghost rest = picks(s@, pre, k as nat, x as nat + 1, s@.len());
        let ghost before = out@;
        prefix.push(s[x]);
        if k == 1 {
            let item: [T; 4] = [prefix[0], prefix[1], prefix[2], prefix[3]];
            out.push(item);
            proof {
                assert(combos(0, x as nat + 1, s@.len()) == seq![Seq::<nat>::empty()]);
                assert(here.len() == 1);
                assert(item@ =~= here[0]);
            }
        } else {
            collect_picks(s, prefix, k - 1, x + 1, out);
        }
        prefix.pop();
        proof {
            assert(prefix@ =~= pre);
            assert forall|t: int| 0 <= t < start.len() implies #[trigger] out@[t] == start[t] by {
                assert(out@[t] == before[t]);
            }
            assert forall|t: int| 0 <= t < out@.len() - start.len() implies #[trigger] out@[start.len() + t]@ == all[t] by {
                if start.len() + t >= before.len() {
                    let u = start.len() + t - before.len();
                    assert(out@[before.len() + u]@ == here[u]);
                    assert(all[before.len() - start.len() + u] == (here + rest)[u]);
                }
            }
            assert forall|t: int|
                0 <= t < rest.len() implies all[out@.len() - start.len() + t] == #[trigger] rest[t] by {
                assert(all[before.len() - start.len() + (here.len() + t)] == (here + rest)[here.len() + t]);
            }
        }
        x = x + 1;
    }
    proof {
        assert(combos(k as nat, x as nat, s@.len()).len() == 0);
    }
}

impl<T: Copy> PermuteFour<T> for Vec<T> {
    open spec fn items(&self) -> Seq<T> {
        self@
    }

    fn permute_four(&self) -> (r: Vec<[T; 4]>) {
        let mut out: Vec<[T; 4]> = Vec::new();
        let mut prefix: Vec<T> = Vec::new();
        assert(prefix@ =~= Seq::<T>::empty());
        collect_picks(self, &mut prefix, 4, 0, &mut out);
        let ghost all = picks(self@, Seq::empty(), 4, 0, self@.len());
        proof {
            lemma_combos_len(4, 0, self@.len());
        }
        assert forall|t: int| 0 <= t < out@.len() implies #[trigger] out@[t]@ == all[t] by {
            assert(out@[0 + t] == out@[t]);
        }
        out
    }
}

/// Factorials, binomial coefficients and ordered pair enumeration on an
/// unsigned integer type.
pub trait ExtendedMathOps where Self: Sized {
    /// The value as a natural number.
    spec fn as_nat(&self) -> nat;

    /// The largest representable value.
    spec fn max_value() -> nat;

    /// `self!`
    fn factorial(&self) -> (r: Self)
        requires
            factorial(self.as_nat()) <= Self::max_value(),
        ensures
            r.as_nat() == factorial(self.as_nat()),
    ;

    /// The number of ways to choose `k` items out of `self`, C(self, k).
    fn permute(&self, k: Self) -> (r: Self)
        requires
            k.as_nat() <= self.as_nat(),
            factorial(self.as_nat()) <= Self::max_value(),
        ensures
            r.as_nat() == binomial(self.as_nat(), k.as_nat()),
    ;

    /// The pairs `(i, j)` with `from <= i < j <= to`, in lexicographic order.
    fn pair_permutations(from: Self, to: Self) -> (r: Vec<(Self, Self)>)
        requires
            to.as_nat() < Self::max_value(),
        ensures
            r@.len() == pairs_in(from.as_nat(), to.as_nat() + 1).len(),
            forall|t: int|
                0 <= t < r@.len() ==> (#[trigger] r@[t].0.as_nat(), r@[t].1.as_nat()) == pairs_in(
                    from.as_nat(),
                    to.as_nat() + 1,
                )[t],
    ;
}

impl ExtendedMathOps for usize {
    open spec fn as_nat(&self) -> nat {
        *self as nat
    }

    open spec fn max_value() -> nat {
        usize::MAX as nat
    }

    fn factorial(&self) -> (r: usize) {
        let mut f: usize = 1;
        let mut i: usize = 0;
        while i < *self
            invariant
                i <= *self,
                f == factorial(i as nat),
                factorial(*self as nat) <= usize::MAX,
            decreases *self - i,
        {
            i = i + 1;
            proof {
                lemma_factorial_monotonic(i as nat, *self as nat);
                assert(factorial(i as nat) == i * factorial((i - 1) as nat));
                assert(f * i == factorial(i as nat)) by (nonlinear_arith)
                    requires
                        f == factorial((i - 1) as nat),
                        factorial(i as nat) == i * factorial((i - 1) as nat),
                ;
            }
            f = f * i;
        }
        f
    }

    fn permute(&self, k: usize) -> (r: usize) {
        proof {
            lemma_factorial_monotonic(k as nat, *self as nat);
            lemma_factorial_monotonic((*self - k) as nat, *self as nat);
            lemma_factorial_split(*self as nat, k as nat);
            lemma_factorial_positive(k as nat);
            lemma_factorial_positive((*self - k) as nat);
        }
        let n_fact = self.factorial();
        let k_fact = k.factorial();
        let rest_fact = (*self - k).factorial();
        proof {
            let c = binomial(*self as nat, k as nat);
            assert(k_fact * rest_fact >= 1) by (nonlinear_arith)
                requires
                    k_fact >= 1,
                    rest_fact >= 1,
            ;
            assert(n_fact == c * (k_fact * rest_fact)) by (nonlinear_arith)
                requires
                    n_fact == c * k_fact * rest_fact,
            ;
            assert(k_fact * rest_fact <= n_fact) by (nonlinear_arith)
                requires
                    n_fact == c * (k_fact * rest_fact),
                    n_fact >= 1,
                    k_fact >= 1,
                    rest_fact >= 1,
            ;
            assert(n_fact as int / (k_fact * rest_fact) as int == c) by (nonlinear_arith)
                requires
                    n_fact == c * (k_fact * rest_fact),
                    k_fact * rest_fact >= 1,
            ;
        }
        n_fact / (k_fact * rest_fact)
    }

    fn pair_permutations(from: usize, to: usize) -> (r: Vec<(usize, usize)>) {
        let ghost all = pairs_in(from as nat, to as nat + 1);
        let mut pairs: Vec<(usize, usize)> = Vec::new();
        let mut i: usize = from;
        while i <= to
            invariant
                to < usize::MAX,
                from <= i <= to + 1 || (from > to && i == from),
                all == pairs_in(from as nat, to as nat + 1),
                pairs@.len() + pairs_in(i as nat, to as nat + 1).len() == all.len(),
                forall|t: int|
                    0 <= t < pairs@.len() ==> (#[trigger] pairs@[t].0 as nat, pairs@[t].1 as nat)
                        == all[t],
                forall|t: int|
                    0 <= t < pairs_in(i as nat, to as nat + 1).len() ==> all[pairs@.len() + t]
                        == #[trigger] pairs_in(i as nat, to as nat + 1)[t],
            decreases to + 1 - i,
        {
            let ghost start = pairs@.len();
            let ghost row = Seq::new(
                (to + 1 - i - 1) as nat,
                |k: int| (i as nat, (i + 1 + k) as nat),
            );
            assert(pairs_in(i as nat, to as nat + 1) == row + pairs_in(i as nat + 1, to as nat + 1));
            let mut j: usize = i + 1;
            while j <= to
                invariant
                    to < usize::MAX,
                    i <= to,
                    i + 1 <= j <= to + 1,
                    pairs@.len() == start + (j - i - 1),
                    row == Seq::new((to + 1 - i - 1) as nat, |k: int| (i as nat, (i + 1 + k) as nat)),
                    forall|t: int|
                        0 <= t < start ==> (#[trigger] pairs@[t].0 as nat, pairs@[t].1 as nat)
                            == all[t],
                    forall|t: int|
                        start <= t < pairs@.len() ==> (#[trigger] pairs@[t].0 as nat, pairs@[t].1 as nat)
                            == row[t - start],
                decreases to + 1 - j,
            {
                pairs.push((i, j));
                j = j + 1;
            }
            assert forall|t: int| 0 <= t < pairs@.len() implies (#[trigger] pairs@[t].0 as nat, pairs@[t].1 as nat) == all[t] by {
                if t >= start {
                    assert(all[start + (t - start)] == pairs_in(i as nat, to as nat + 1)[t - start]);
                }
            }
            assert forall|t: int|
                0 <= t < pairs_in(i as nat + 1, to as nat + 1).len() implies all[pairs@.len() + t]
                == #[trigger] pairs_in(i as nat + 1, to as nat + 1)[t] by {
                assert(all[start + (row.len() + t)] == pairs_in(i as nat, to as nat + 1)[row.len() + t]);
            }
            i = i + 1;
        }
        proof {
            assert(pairs_in(i as nat, to as nat + 1).len() == 0);
        }
        pairs
    }
}

} // verus!
