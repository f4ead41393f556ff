use vstd::prelude::*;

verus! {

/// Number of sample positions along one input when offsets run over `-s ..= s`.
pub open spec fn radix(s: int) -> int {
    2 * s + 1
}

/// Every offset of `v` lies in `-s ..= s`.
pub open spec fn in_range(v: Seq<i64>, s: int) -> bool {
    forall|i: int| 0 <= i < v.len() ==> -s <= #[trigger] v[i] <= s
}

/// Position of `v` in the enumeration: the offsets, shifted by `s`, read as the
/// digits of a number in base `2s + 1`, the first offset the most significant.
pub open spec fn rank(v: Seq<i64>, s: int) -> int
    decreases v.len(),
{
    if v.len() == 0 {
        0
    } else {
        rank(v.drop_last(), s) * radix(s) + (v.last() + s)
    }
}

/// Number of offset vectors of length `n` with every offset in `-s ..= s`.
pub open spec fn combinations(n: nat, s: int) -> int
    decreases n,
{
    if n == 0 {
        1
    } else {
        combinations((n - 1) as nat, s) * radix(s)
    }
}

/// The offset vector of length `n` at position `k` of the enumeration.
pub open spec fn unrank(k: int, n: nat, s: int) -> Seq<i64>
    decreases n,
{
    if n == 0 {
        Seq::empty()
    } else {
        unrank(k / radix(s), (n - 1) as nat, s).push((k % radix(s) - s) as i64)
    }
}

/// `m` copies of `x`.
pub open spec fn fill(m: nat, x: i64) -> Seq<i64> {
    Seq::new(m, |j: int| x)
}

proof fn lemma_combinations_positive(n: nat, s: int)
    requires
        s >= 0,
    ensures
        combinations(n, s) >= 1,
    decreases n,
{
    if n > 0 {
        lemma_combinations_positive((n - 1) as nat, s);
        let c = combinations((n - 1) as nat, s);
        assert(c * radix(s) >= 1) by (nonlinear_arith)
            requires
                c >= 1,
                radix(s) >= 1,
        ;
    }
}

/// A vector of in-range offsets ranks below the number of such vectors.
proof fn lemma_rank_bounds(v: Seq<i64>, s: int)
    requires
        s >= 0,
        in_range(v, s),
    ensures
        0 <= rank(v, s) < combinations(v.len(), s),
    decreases v.len(),
{
    if v.len() > 0 {
        let p = v.drop_last();
        assert(in_range(p, s)) by {
            assert forall|i: int| 0 <= i < p.len() implies -s <= #[trigger] p[i] <= s by {
                assert(p[i] == v[i]);
            }
        }
        lemma_rank_bounds(p, s);
        let r = rank(p, s);
        let c = combinations(p.len(), s);
        let d = v.last() + s;
        assert(0 <= d < radix(s)) by {
            assert(v.last() == v[v.len() - 1]);
        }
        assert(0 <= r * radix(s) + d < c * radix(s)) by (nonlinear_arith)
            requires
                0 <= r < c,
                0 <= d < radix(s),
        ;
    }
}

/// Appending `m` offsets at the top of the range.
proof fn lemma_rank_fill_top(p: Seq<i64>, m: nat, s: int)
    requires
        0 <= s <= i64::MAX,
    ensures
        rank(p + fill(m, s as i64), s) == (rank(p, s) + 1) * combinations(m, s) - 1,
    decreases m,
{
    if m == 0 {
        assert(p + fill(0, s as i64) =~= p);
    } else {
        let q = p + fill(m, s as i64);
        assert(q.drop_last() =~= p + fill((m - 1) as nat, s as i64));
        assert(q.last() == s);
        lemma_rank_fill_top(p, (m - 1) as nat, s);
        let r = rank(p, s);
        let c = combinations((m - 1) as nat, s);
        assert(((r + 1) * c - 1) * radix(s) + (s + s) == (r + 1) * (c * radix(s)) - 1)
            by (nonlinear_arith)
            requires
                radix(s) == 2 * s + 1,
        ;
    }
}

/// Appending `m` offsets at the bottom of the range.
proof fn lemma_rank_fill_bottom(p: Seq<i64>, m: nat, s: int)
    requires
        0 <= s <= i64::MAX,
    ensures
        rank(p + fill(m, (-s) as i64), s) == rank(p, s) * combinations(m, s),
    decreases m,
{
    if m == 0 {
        assert(p + fill(0, (-s) as i64) =~= p);
    } else {
        let q = p + fill(m, (-s) as i64);
        assert(q.drop_last() =~= p + fill((m - 1) as nat, (-s) as i64));
        assert(q.last() == -s);
        lemma_rank_fill_bottom(p, (m - 1) as nat, s);
        let r = rank(p, s);
        let c = combinations((m - 1) as nat, s);
        assert((r * c) * radix(s) == r * (c * radix(s))) by (nonlinear_arith);
    }
}

/// Ranking undoes the enumeration: position `k` holds an in-range vector of rank `k`.
proof fn lemma_rank_of_unrank(k: int, n: nat, s: int)
    requires
        1 <= s <= i64::MAX / 2,
        0 <= k < combinations(n, s),
    ensures
        unrank(k, n, s).len() == n,
        in_range(unrank(k, n, s), s),
        rank(unrank(k, n, s), s) == k,
    decreases n,
{
    if n > 0 {
        let b = radix(s);
        let c = combinations((n - 1) as nat, s);
        assert(0 <= k / b < c) by (nonlinear_arith)
            requires
                0 <= k < c * b,
                b >= 1,
        ;
        lemma_rank_of_unrank(k / b, (n - 1) as nat, s);
        let v = unrank(k, n, s);
        let d = k % b;
        assert(0 <= d < b) by (nonlinear_arith)
            requires
                b >= 1,
                d == k % b,
        ;
        assert(v.drop_last() =~= unrank(k / b, (n - 1) as nat, s));
        assert(v.last() == d - s);
        assert forall|i: int| 0 <= i < v.len() implies -s <= #[trigger] v[i] <= s by {
            if i < v.len() - 1 {
                assert(v[i] == v.drop_last()[i]);
            }
        }
        assert(k == (k / b) * b + d) by (nonlinear_arith)
            requires
                b >= 1,
                d == k % b,
        ;
    }
}

/// The enumeration undoes ranking: an in-range vector sits at the position of its rank.
proof fn lemma_unrank_of_rank(v: Seq<i64>, s: int)
    requires
        1 <= s <= i64::MAX / 2,
        in_range(v, s),
    ensures
        unrank(rank(v, s), v.len(), s) == v,
    decreases v.len(),
{
    if v.len() > 0 {
        let p = v.drop_last();
        assert(in_range(p, s)) by {
            assert forall|i: int| 0 <= i < p.len() implies -s <= #[trigger] p[i] <= s by {
                assert(p[i] == v[i]);
            }
        }
        lemma_unrank_of_rank(p, s);
        let b = radix(s);
        let r = rank(p, s);
        let d = v.last() + s;
        assert(0 <= d < b) by {
            assert(v.last() == v[v.len() - 1]);
        }
        assert((r * b + d) / b == r && (r * b + d) % b == d) by (nonlinear_arith)
            requires
                0 <= d < b,
        ;
        assert(unrank(rank(v, s), v.len(), s) =~= v);
    }
}

/// Enumerating offset vectors by rank reaches every vector of in-range offsets
/// exactly once: ranking is a bijection between such vectors of length `n` and
/// the positions `0 .. combinations(n, s)`, with `unrank` as its inverse.
pub proof fn lemma_enumeration_is_exhaustive(n: nat, s: int)
    requires
        1 <= s <= i64::MAX / 2,
    ensures
        forall|v: Seq<i64>|
            v.len() == n && in_range(v, s) ==> {
                &&& 0 <= #[trigger] rank(v, s) < combinations(n, s)
                &&& unrank(rank(v, s), n, s) == v
            },
        forall|k: int|
            0 <= k < combinations(n, s) ==> {
                &&& (#[trigger] unrank(k, n, s)).len() == n
                &&& in_range(unrank(k, n, s), s)
                &&& rank(unrank(k, n, s), s) == k
            },
{
    assert forall|v: Seq<i64>| v.len() == n && in_range(v, s) implies {
        &&& 0 <= #[trigger] rank(v, s) < combinations(n, s)
        &&& unrank(rank(v, s), n, s) == v
    } by {
        lemma_rank_bounds(v, s);
        lemma_unrank_of_rank(v, s);
    }
    assert forall|k: int| 0 <= k < combinations(n, s) implies {
        &&& (#[trigger] unrank(k, n, s)).len() == n
        &&& in_range(unrank(k, n, s), s)
        &&& rank(unrank(k, n, s), s) == k
    } by {
        lemma_rank_of_unrank(k, n, s);
    }
}

/// A mixed-radix counter over vectors of sample offsets, one offset per
/// input, each running over `-half_width ..= half_width`; the last offset
/// moves fastest.
pub struct Odometer {
    pub offsets: Vec<i64>,
    pub half_width: i64,
}

impl Odometer {
    pub open spec fn wf(&self) -> bool {
        &&& 1 <= self.half_width <= i64::MAX / 2
        &&& in_range(self.offsets@, self.half_width as int)
    }

    /// Position of the current offsets in the enumeration.
    pub open spec fn position(&self) -> int {
        rank(self.offsets@, self.half_width as int)
    }

    /// Number of offset vectors the counter goes through.
    pub open spec fn total(&self) -> int {
        combinations(self.offsets@.len(), self.half_width as int)
    }

    /// A counter over `dims` offsets, at the first vector: every offset at `-half_width`.
    pub fn new(dims: usize, half_width: i64) -> (r: Self)
        requires
            1 <= half_width <= i64::MAX / 2,
        ensures
            r.wf(),
            r.half_width == half_width,
            r.offsets@ == fill(dims as nat, (-half_width) as i64),
            r.position() == 0,
            r.position() < r.total(),
    {
        let mut offsets: Vec<i64> = Vec::new();
        let mut i: usize = 0;
        while i < dims
            invariant
                i <= dims,
                1 <= half_width <= i64::MAX / 2,
                offsets@ == fill(i as nat, (-half_width) as i64),
            decreases dims - i,
        {
            offsets.push(-half_width);
            i = i + 1;
            assert(offsets@ =~= fill(i as nat, (-half_width) as i64));
        }
        proof {
            let s = half_width as int;
            assert(Seq::<i64>::empty() + fill(dims as nat, (-s) as i64) =~= offsets@);
            lemma_rank_fill_bottom(Seq::<i64>::empty(), dims as nat, s);
            lemma_combinations_positive(dims as nat, s);
        }
        Odometer { offsets, half_width }
    }

    /// Moves to the next offset vector and returns `true`; at the last vector
    /// (every offset at `half_width`) it stays there and returns `false`.
    pub fn advance(&mut self) -> (r: bool)
        requires
            old(self).wf(),
        ensures
            final(self).wf(),
            final(self).half_width == old(self).half_width,
            final(self).offsets@.len() == old(self).offsets@.len(),
            final(self).total() == old(self).total(),
            final(self).position() < final(self).total(),
            r == (old(self).position() + 1 < old(self).total()),
            r ==> final(self).position() == old(self).position() + 1,
            !r ==> *final(self) == *old(self),
    {
        let ghost v = self.offsets@;
        let ghost s = self.half_width as int;
        let n = self.offsets.len();
        let mut i: usize = n;
        while i > 0
            invariant
                i <= n,
                n == v.len(),
                self.offsets@ == v,
                self.half_width == s,
                self.wf(),
                *self == *old(self),
                v == old(self).offsets@,
                s == old(self).half_width,
                forall|j: int| i <= j < n ==> #[trigger] v[j] == s,
            decreases i,
        {
            if self.offsets[i - 1] < self.half_width {
                let k = i - 1;
                let bumped = self.offsets[k] + 1;
                self.offsets.set(k, bumped);
                let mut j: usize = i;
                while j < n
                    invariant
                        i <= j <= n,
                        k + 1 == i,
                        n == v.len(),
                        self.half_width == s,
                        1 <= s <= i64::MAX / 2,
                        v == old(self).offsets@,
                        s == old(self).half_width,
                        self.offsets@ == v.subrange(0, k as int).push(bumped) + fill(
                            (j - i) as nat,
                            (-s) as i64,
                        ) + v.subrange(j as int, n as int),
                    decreases n - j,
                {
                    self.offsets.set(j, -self.half_width);
                    j = j + 1;
                    assert(self.offsets@ =~= v.subrange(0, k as int).push(bumped) + fill(
                        (j - i) as nat,
                        (-s) as i64,
                    ) + v.subrange(j as int, n as int));
                }
                proof {
                    let p = v.subrange(0, k as int + 1);
                    let m = (n - i) as nat;
                    assert(v =~= p + fill(m, s as i64));
                    lemma_rank_fill_top(p, m, s);
                    let q = v.subrange(0, k as int).push(bumped);
                    assert(self.offsets@ =~= q + fill(m, (-s) as i64));
                    lemma_rank_fill_bottom(q, m, s);
                    assert(p.drop_last() =~= v.subrange(0, k as int));
                    assert(q.drop_last() =~= v.subrange(0, k as int));
                    assert(rank(q, s) == rank(p, s) + 1);
                    assert(in_range(self.offsets@, s));
                    lemma_rank_bounds(self.offsets@, s);
                    assert((rank(p, s) + 1) * combinations(m, s) + combinations(m, s) - 1
                        == (rank(q, s) + 1) * combinations(m, s) - 1) by (nonlinear_arith)
                        requires
                            rank(q, s) == rank(p, s) + 1,
                    ;
                    lemma_combinations_positive(m, s);
                }
                return true;
            }
            i = i - 1;
        }
        proof {
            assert(v =~= Seq::<i64>::empty() + fill(n as nat, s as i64));
            lemma_rank_fill_top(Seq::<i64>::empty(), n as nat, s);
            assert(rank(Seq::<i64>::empty(), s) == 0);
            let c = combinations(n as nat, s);
            assert((0 + 1) * c == c) by (nonlinear_arith);
            assert(rank(Seq::<i64>::empty() + fill(n as nat, s as i64), s) == c - 1);
            assert(rank(v, s) == combinations(n as nat, s) - 1);
            lemma_rank_bounds(v, s);
        }
        false
    }

    /// The current offset of input `k`.
    pub fn offset(&self, k: usize) -> (r: i64)
        requires
            k < self.offsets@.len(),
        ensures
            r == self.offsets@[k as int],
    {
        self.offsets[k]
    }
}

} // verus!
