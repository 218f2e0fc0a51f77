//! The discrete counting behind the information measures: factorials,
//! the Lehmer code of an ordinal pattern, and the counts of bin indices,
//! of pairs of bin indices and of distinct triples of bin indices.
//!
//! Turning measurements into bin indices, and counts into bits, is done
//! with floating point by the caller; everything here is exact.
use vstd::prelude::*;

verus! {

/// `n!`
pub open spec fn spec_factorial(n: nat) -> nat
    decreases n,
{
    if n <= 1 {
        1
    } else {
        n * spec_factorial((n - 1) as nat)
    }
}

/// Factorials are positive and grow with `n`.
pub proof fn lemma_factorial_monotone(m: nat, n: nat)
    requires
        m <= n,
    ensures
        1 <= spec_factorial(m) <= spec_factorial(n),
    decreases n,
{
    if n > m {
        lemma_factorial_monotone(m, (n - 1) as nat);
        assert(spec_factorial((n - 1) as nat) <= n * spec_factorial((n - 1) as nat)) by (nonlinear_arith)
            requires
                n >= 1,
        ;
    } else if n > 1 {
        lemma_factorial_monotone((n - 1) as nat, (n - 1) as nat);
        assert(1 <= n * spec_factorial((n - 1) as nat)) by (nonlinear_arith)
            requires
                n >= 1,
                spec_factorial((n - 1) as nat) >= 1,
        ;
    }
}

/// `n!`, for the small `n` whose factorial fits in a `usize` (order of an
/// ordinal pattern).
pub fn factorial(n: usize) -> (r: usize)
    requires
        spec_factorial(n as nat) <= usize::MAX,
    ensures
        r == spec_factorial(n as nat),
{
    if n <= 1 {
        return 1;
    }
    proof {
        lemma_factorial_at_least(n as nat);
    }
    let mut r: usize = 1;
    let mut k: usize = 2;
    while k <= n
        invariant
            2 <= k <= n + 1,
            n < usize::MAX,
            r == spec_factorial((k - 1) as nat),
            spec_factorial(n as nat) <= usize::MAX,
        decreases n + 1 - k,
    {
        proof {
            lemma_factorial_monotone(k as nat, n as nat);
            assert(spec_factorial(k as nat) == k * spec_factorial((k - 1) as nat));
        }
        r = k * r;
        k = k + 1;
    }
    r
}

/// `n!` when it fits in a `usize`, `None` when it does not: the test
/// that an ordinal pattern order is small enough to count its patterns.
pub fn checked_factorial(n: usize) -> (r: Option<usize>)
    ensures
        r matches Some(v) ==> v == spec_factorial(n as nat),
        r is None <==> spec_factorial(n as nat) > usize::MAX,
{
    let mut r: usize = 1;
    let mut k: usize = 0;
    while k < n
        invariant
            k <= n,
            r == spec_factorial(k as nat),
        decreases n - k,
    {
        proof {
            lemma_factorial_succ(k as nat);
        }
        match r.checked_mul(k + 1) {
            Some(v) => {
                assert(v == (k + 1) * r) by (nonlinear_arith)
                    requires
                        v == r * (k + 1),
                ;
                r = v;
            },
            None => {
                proof {
                    assert((k + 1) * r == r * (k + 1)) by (nonlinear_arith);
                    lemma_factorial_monotone((k + 1) as nat, n as nat);
                }
                return None;
            },
        }
        k = k + 1;
    }
    Some(r)
}

/// `n <= n!`, with `n < n!` from 3 on.
proof fn lemma_factorial_at_least(n: nat)
    ensures
        n <= spec_factorial(n),
        n >= 3 ==> n < spec_factorial(n),
    decreases n,
{
    if n >= 2 {
        lemma_factorial_at_least((n - 1) as nat);
        lemma_factorial_monotone(1, (n - 1) as nat);
        assert(n <= n * spec_factorial((n - 1) as nat)) by (nonlinear_arith)
            requires
                spec_factorial((n - 1) as nat) >= 1,
        ;
        if n >= 3 {
            assert(n < n * spec_factorial((n - 1) as nat)) by (nonlinear_arith)
                requires
                    spec_factorial((n - 1) as nat) >= 2,
                    n >= 3,
            ;
        }
    }
}

/// `(m + 1)! == (m + 1) * m!`
pub proof fn lemma_factorial_succ(m: nat)
    ensures
        spec_factorial(m + 1) == (m + 1) * spec_factorial(m),
{
    if m == 0 {
        assert(spec_factorial(1) == 1);
        assert(spec_factorial(0) == 1);
    } else {
        assert(((m + 1) - 1) as nat == m);
    }
}

/// How many of the entries from position `j` on are smaller than `p[i]`.
pub open spec fn smaller_after(p: Seq<usize>, i: int, j: int) -> nat
    decreases p.len() - j,
{
    if j >= p.len() {
        0
    } else {
        (if p[j] < p[i] { 1nat } else { 0nat }) + smaller_after(p, i, j + 1)
    }
}

/// The Lehmer code of `p` from position `i` on: the sum over `i' >= i` of
/// (entries after `i'` smaller than `p[i']`) times `(len - 1 - i')!`.
pub open spec fn lehmer_from(p: Seq<usize>, i: int) -> nat
    decreases p.len() - i,
{
    if i >= p.len() {
        0
    } else {
        smaller_after(p, i, i + 1) * spec_factorial((p.len() - 1 - i) as nat) + lehmer_from(p, i + 1)
    }
}

/// The Lehmer code (rank in the factorial number system) of an arrangement
/// of indices.
pub open spec fn lehmer_code_of(p: Seq<usize>) -> nat {
    lehmer_from(p, 0)
}

proof fn lemma_smaller_after_bound(p: Seq<usize>, i: int, j: int)
    requires
        0 <= j <= p.len(),
    ensures
        smaller_after(p, i, j) <= p.len() - j,
    decreases p.len() - j,
{
    if j < p.len() {
        lemma_smaller_after_bound(p, i, j + 1);
    }
}

/// The code from position `i` on is below `(len - i)!`.
proof fn lemma_lehmer_from_bound(p: Seq<usize>, i: int)
    requires
        0 <= i <= p.len(),
    ensures
        lehmer_from(p, i) < spec_factorial((p.len() - i) as nat),
    decreases p.len() - i,
{
    if i < p.len() {
        lemma_lehmer_from_bound(p, i + 1);
        lemma_smaller_after_bound(p, i, i + 1);
        let m = (p.len() - 1 - i) as nat;
        let c = smaller_after(p, i, i + 1);
        let f = spec_factorial(m);
        assert(c * f <= m * f) by (nonlinear_arith)
            requires
                c <= m,
        ;
        let m1 = (m + 1) as nat;
        lemma_factorial_succ(m);
        assert(m1 * f == m * f + f) by (nonlinear_arith)
            requires
                m1 == m + 1,
        ;
        assert((p.len() - i) as nat == m1);
    } else {
        assert(spec_factorial(0) == 1);
    }
}

/// Every code of an arrangement of `n` entries lies in `0 .. n!`: distinct
/// ordinal patterns of order `n` index a table of `n!` counts.
pub proof fn lemma_lehmer_code_below_factorial(p: Seq<usize>)
    ensures
        lehmer_code_of(p) < spec_factorial(p.len()),
{
    lemma_lehmer_from_bound(p, 0);
}

/// How many entries of `s` are below `t`.
pub open spec fn count_below(s: Seq<usize>, t: usize) -> nat
    decreases s.len(),
{
    if s.len() == 0 {
        0
    } else {
        (if s[0] < t { 1nat } else { 0nat }) + count_below(s.drop_first(), t)
    }
}

/// The entries after `j` that are smaller than `p[i]` are counted by
/// `count_below` on the tail of `p` from `j`.
proof fn lemma_smaller_after_counts_tail(p: Seq<usize>, i: int, j: int)
    requires
        0 <= j <= p.len(),
    ensures
        smaller_after(p, i, j) == count_below(p.subrange(j, p.len() as int), p[i]),
    decreases p.len() - j,
{
    if j < p.len() {
        lemma_smaller_after_counts_tail(p, i, j + 1);
        assert(p.subrange(j, p.len() as int).drop_first() =~= p.subrange(j + 1, p.len() as int));
    }
}

/// Taking out the entry at `k` takes out its share of the count.
proof fn lemma_count_below_remove(s: Seq<usize>, k: int, t: usize)
    requires
        0 <= k < s.len(),
    ensures
        count_below(s, t) == (if s[k] < t { 1nat } else { 0nat }) + count_below(s.remove(k), t),
    decreases k,
{
    if k > 0 {
        lemma_count_below_remove(s.drop_first(), k - 1, t);
        assert(s.remove(k).drop_first() =~= s.drop_first().remove(k - 1));
        assert(s.remove(k)[0] == s[0]);
    } else {
        assert(s.remove(0) =~= s.drop_first());
    }
}

/// Two duplicate-free sequences with the same entries have the same count
/// below any bound, whatever their order.
proof fn lemma_count_below_same_entries(a: Seq<usize>, b: Seq<usize>, t: usize)
    requires
        a.no_duplicates(),
        b.no_duplicates(),
        forall|x: usize| #![trigger a.contains(x)] #![trigger b.contains(x)]
            a.contains(x) <==> b.contains(x),
    ensures
        count_below(a, t) == count_below(b, t),
    decreases a.len(),
{
    if a.len() == 0 {
        if b.len() > 0 {
            assert(b.contains(b[0]));
        }
    } else {
        let x = a[0];
        assert(a.contains(x));
        assert(b.contains(x));
        let k = choose|k: int| 0 <= k < b.len() && b[k] == x;
        lemma_count_below_remove(b, k, t);
        let a1 = a.drop_first();
        let b1 = b.remove(k);
        b.remove_ensures(k);
        assert(b1.no_duplicates()) by {
            assert forall|i: int, j: int|
                0 <= i < b1.len() && 0 <= j < b1.len() && i != j implies b1[i] != b1[j] by {
                let i0 = if i < k { i } else { i + 1 };
                let j0 = if j < k { j } else { j + 1 };
                assert(b1[i] == b[i0]);
                assert(b1[j] == b[j0]);
            }
        }
        assert forall|y: usize| a1.contains(y) implies b1.contains(y) by {
            let m = choose|m: int| 0 <= m < a1.len() && a1[m] == y;
            assert(a[m + 1] == y);
            assert(a.contains(y));
            assert(b.contains(y));
            let l = choose|l: int| 0 <= l < b.len() && b[l] == y;
            if l < k {
                assert(b1[l] == y);
            } else {
                assert(l != k);
                assert(b1[l - 1] == y);
            }
        }
        assert forall|y: usize| b1.contains(y) implies a1.contains(y) by {
            let l = choose|l: int| 0 <= l < b1.len() && b1[l] == y;
            let l0 = if l < k { l } else { l + 1 };
            assert(b[l0] == y);
            assert(b.contains(y));
            assert(a.contains(y));
            let m = choose|m: int| 0 <= m < a.len() && a[m] == y;
            assert(m != 0);
            assert(a1[m - 1] == y);
        }
        lemma_count_below_same_entries(a1, b1, t);
    }
}

/// Raising the bound never lowers the count, and passing an entry raises it.
proof fn lemma_count_below_grows(s: Seq<usize>, lo: usize, hi: usize)
    requires
        lo <= hi,
    ensures
        count_below(s, lo) <= count_below(s, hi),
        s.contains(lo) && lo < hi ==> count_below(s, lo) < count_below(s, hi),
    decreases s.len(),
{
    if s.len() > 0 {
        lemma_count_below_grows(s.drop_first(), lo, hi);
        if s.contains(lo) && s[0] != lo {
            let k = choose|k: int| 0 <= k < s.len() && s[k] == lo;
            assert(s.drop_first()[k - 1] == lo);
        }
    }
}

/// A digit and a remainder below the place value are read back uniquely.
proof fn lemma_digit_unique(c1: nat, r1: nat, c2: nat, r2: nat, f: nat)
    requires
        r1 < f,
        r2 < f,
        c1 * f + r1 == c2 * f + r2,
    ensures
        c1 == c2,
        r1 == r2,
{
    if c1 < c2 {
        assert(c1 * f + f <= c2 * f) by (nonlinear_arith)
            requires
                c1 + 1 <= c2,
        ;
    } else if c2 < c1 {
        assert(c2 * f + f <= c1 * f) by (nonlinear_arith)
            requires
                c2 + 1 <= c1,
        ;
    }
}

/// Two arrangements that agree before `i` and have the same code from `i`
/// on are equal.
proof fn lemma_lehmer_from_determines(p: Seq<usize>, q: Seq<usize>, i: int)
    requires
        p.len() == q.len(),
        0 <= i <= p.len(),
        p.no_duplicates(),
        q.no_duplicates(),
        forall|x: usize| #![trigger p.contains(x)] #![trigger q.contains(x)]
            p.contains(x) <==> q.contains(x),
        forall|k: int| 0 <= k < i ==> p[k] == q[k],
        lehmer_from(p, i) == lehmer_from(q, i),
    ensures
        p == q,
    decreases p.len() - i,
{
    let n = p.len() as int;
    if i == n {
        assert(p =~= q);
    } else {
        let f = spec_factorial((n - 1 - i) as nat);
        let cp = smaller_after(p, i, i + 1);
        let cq = smaller_after(q, i, i + 1);
        lemma_lehmer_from_bound(p, i + 1);
        lemma_lehmer_from_bound(q, i + 1);
        assert((n - (i + 1)) as nat == (n - 1 - i) as nat);
        lemma_digit_unique(cp, lehmer_from(p, i + 1), cq, lehmer_from(q, i + 1), f);
        let tp = p.subrange(i, n);
        let tq = q.subrange(i, n);
        assert(tp.no_duplicates());
        assert(tq.no_duplicates());
        assert forall|y: usize| tp.contains(y) implies tq.contains(y) by {
            let m = choose|m: int| 0 <= m < tp.len() && tp[m] == y;
            assert(p[m + i] == y);
            assert(p.contains(y));
            assert(q.contains(y));
            let l = choose|l: int| 0 <= l < q.len() && q[l] == y;
            if l < i {
                assert(p[l] == y);
            }
            assert(tq[l - i] == y);
        }
        assert forall|y: usize| tq.contains(y) implies tp.contains(y) by {
            let m = choose|m: int| 0 <= m < tq.len() && tq[m] == y;
            assert(q[m + i] == y);
            assert(q.contains(y));
            assert(p.contains(y));
            let l = choose|l: int| 0 <= l < p.len() && p[l] == y;
            if l < i {
                assert(q[l] == y);
            }
            assert(tp[l - i] == y);
        }
        lemma_smaller_after_counts_tail(p, i, i + 1);
        lemma_smaller_after_counts_tail(q, i, i + 1);
        assert(tp.drop_first() =~= p.subrange(i + 1, n));
        assert(tq.drop_first() =~= q.subrange(i + 1, n));
        assert(count_below(tp, p[i]) == cp);
        assert(count_below(tq, q[i]) == cq);
        lemma_count_below_same_entries(tp, tq, p[i]);
        lemma_count_below_same_entries(tp, tq, q[i]);
        if p[i] < q[i] {
            assert(tp.contains(p[i])) by {
                assert(tp[0] == p[i]);
            }
            lemma_count_below_grows(tp, p[i], q[i]);
        } else if q[i] < p[i] {
            assert(tq.contains(q[i])) by {
                assert(tq[0] == q[i]);
            }
            lemma_count_below_grows(tq, q[i], p[i]);
        }
        assert(p[i] == q[i]);
        lemma_lehmer_from_determines(p, q, i + 1);
    }
}

/// Each ordinal pattern has its own code: two arrangements of the same
/// distinct indices whose Lehmer codes agree are the same arrangement.
pub proof fn lemma_lehmer_code_unique(p: Seq<usize>, q: Seq<usize>)
    requires
        p.no_duplicates(),
        q.no_duplicates(),
        p.to_set() == q.to_set(),
        lehmer_code_of(p) == lehmer_code_of(q),
    ensures
        p == q,
{
    p.unique_seq_to_set();
    q.unique_seq_to_set();
    assert forall|x: usize| p.contains(x) <==> q.contains(x) by {
        assert(p.to_set().contains(x) == p.contains(x));
        assert(q.to_set().contains(x) == q.contains(x));
    }
    lemma_lehmer_from_determines(p, q, 0);
}

proof fn lemma_term_fits(p: Seq<usize>, i: int)
    requires
        0 <= i < p.len(),
    ensures
        smaller_after(p, i, i + 1) * spec_factorial((p.len() - 1 - i) as nat) <= lehmer_from(p, i),
{
}

/// The Lehmer code of an arrangement of indices: the index of its ordinal
/// pattern among the `n!` patterns of order `n`.
pub fn lehmer_code(p: &[usize]) -> (code: usize)
    requires
        spec_factorial(p@.len()) <= usize::MAX,
    ensures
        code == lehmer_code_of(p@),
        code < spec_factorial(p@.len()),
{
    let n = p.len();
    proof {
        lemma_lehmer_code_below_factorial(p@);
    }
    let mut code: usize = 0;
    let mut i: usize = 0;
    while i < n
        invariant
            n == p@.len(),
            0 <= i <= n,
            code + lehmer_from(p@, i as int) == lehmer_code_of(p@),
            lehmer_code_of(p@) < spec_factorial(n as nat),
            spec_factorial(n as nat) <= usize::MAX,
        decreases n - i,
    {
        proof {
            lemma_smaller_after_bound(p@, i as int, i + 1);
        }
        let mut count: usize = 0;
        let mut j: usize = i + 1;
        while j < n
            invariant
                n == p@.len(),
                0 <= i < n,
                i + 1 <= j <= n,
                count + smaller_after(p@, i as int, j as int) == smaller_after(p@, i as int, i + 1),
                smaller_after(p@, i as int, i + 1) <= n,
            decreases n - j,
        {
            if p[j] < p[i] {
                count = count + 1;
            }
            j = j + 1;
        }
        proof {
            lemma_smaller_after_bound(p@, i as int, i + 1);
            lemma_factorial_monotone((n - i - 1) as nat, n as nat);
            lemma_term_fits(p@, i as int);
        }
        let f = factorial(n - i - 1);
        code = code + count * f;
        i = i + 1;
    }
    code
}

/// How many entries of `s` equal `v`.
pub open spec fn occurrences<T>(s: Seq<T>, v: T) -> nat
    decreases s.len(),
{
    if s.len() == 0 {
        0
    } else {
        occurrences(s.drop_last(), v) + (if s.last() == v { 1nat } else { 0nat })
    }
}

/// The sum of a sequence of counts.
pub open spec fn total(s: Seq<usize>) -> nat
    decreases s.len(),
{
    if s.len() == 0 {
        0
    } else {
        total(s.drop_last()) + s.last() as nat
    }
}

proof fn lemma_total_bump(s: Seq<usize>, k: int)
    requires
        0 <= k < s.len(),
        s[k] < usize::MAX,
    ensures
        total(s.update(k, (s[k] + 1) as usize)) == total(s) + 1,
    decreases s.len(),
{
    let t = s.update(k, (s[k] + 1) as usize);
    if k < s.len() - 1 {
        assert(t.drop_last() =~= s.drop_last().update(k, (s[k] + 1) as usize));
        lemma_total_bump(s.drop_last(), k);
    } else {
        assert(t.drop_last() =~= s.drop_last());
    }
}

proof fn lemma_total_zeros(n: nat)
    ensures
        total(Seq::new(n, |i: int| 0usize)) == 0,
    decreases n,
{
    if n > 0 {
        assert(Seq::new(n, |i: int| 0usize).drop_last() =~= Seq::new((n - 1) as nat, |i: int| 0usize));
        lemma_total_zeros((n - 1) as nat);
    }
}

/// Counting `v` in the first `n` entries of `s` is filtering the positions
/// `0 .. n` by "holds `v`" (any predicate that says so on those positions).
proof fn lemma_occurrences_filter_positions(
    s: Seq<usize>,
    v: int,
    n: nat,
    full: Seq<int>,
    pred: spec_fn(int) -> bool,
)
    requires
        n <= s.len(),
        0 <= v <= usize::MAX,
        full.len() == n,
        forall|i: int| 0 <= i < n ==> full[i] == i,
        forall|i: int| 0 <= i < s.len() ==> (pred(i) <==> s[i] == v),
    ensures
        occurrences(s.take(n as int), v as usize) == full.filter(pred).len(),
    decreases n,
{
    reveal(Seq::filter);
    if n > 0 {
        lemma_occurrences_filter_positions(s, v, (n - 1) as nat, full.drop_last(), pred);
        assert(s.take(n as int).drop_last() =~= s.take(n - 1));
        assert(s.take(n as int).last() == s[n - 1]);
        assert(full.last() == n - 1);
    }
}

/// A count of `v` is the number of positions that hold `v`.
pub proof fn lemma_occurrences_counts_positions(s: Seq<usize>, v: int)
    requires
        0 <= v <= usize::MAX,
    ensures
        occurrences(s, v as usize) == Seq::new(s.len(), |i: int| i).filter(|i: int| s[i] == v).len(),
{
    lemma_occurrences_filter_positions(s, v, s.len(), Seq::new(s.len(), |i: int| i), |i: int| s[i] == v);
    assert(s.take(s.len() as int) =~= s);
}

/// Counting `(a, b)` in the first `n` positions of `xs` and `ys` is
/// filtering the positions `0 .. n` by "holds `a` in `xs` and `b` in `ys`".
proof fn lemma_pair_occurrences_filter_positions(
    xs: Seq<usize>,
    ys: Seq<usize>,
    a: int,
    b: int,
    n: nat,
    full: Seq<int>,
    pred: spec_fn(int) -> bool,
)
    requires
        n <= xs.len(),
        n <= ys.len(),
        0 <= a <= usize::MAX,
        0 <= b <= usize::MAX,
        full.len() == n,
        forall|i: int| 0 <= i < n ==> full[i] == i,
        forall|i: int| 0 <= i < n ==> (pred(i) <==> xs[i] == a && ys[i] == b),
    ensures
        pair_occurrences(xs.take(n as int), ys.take(n as int), a as usize, b as usize) == full.filter(
            pred,
        ).len(),
    decreases n,
{
    reveal(Seq::filter);
    if n > 0 {
        lemma_pair_occurrences_filter_positions(xs, ys, a, b, (n - 1) as nat, full.drop_last(), pred);
        assert(xs.take(n as int).drop_last() =~= xs.take(n - 1));
        assert(ys.take(n as int).take(n - 1) =~= ys.take(n - 1));
        assert(xs.take(n as int).last() == xs[n - 1]);
        assert(ys.take(n as int)[n - 1] == ys[n - 1]);
        assert(full.last() == n - 1);
    }
}

/// A joint count of `(a, b)` is the number of positions at which the first
/// sequence holds `a` and the second, at that same position, holds `b`.
pub proof fn lemma_pair_occurrences_counts_positions(xs: Seq<usize>, ys: Seq<usize>, a: int, b: int)
    requires
        xs.len() == ys.len(),
        0 <= a <= usize::MAX,
        0 <= b <= usize::MAX,
    ensures
        pair_occurrences(xs, ys, a as usize, b as usize) == Seq::new(xs.len(), |i: int| i).filter(
            |i: int| xs[i] == a && ys[i] == b,
        ).len(),
{
    lemma_pair_occurrences_filter_positions(
        xs,
        ys,
        a,
        b,
        xs.len(),
        Seq::new(xs.len(), |i: int| i),
        |i: int| xs[i] == a && ys[i] == b,
    );
    assert(xs.take(xs.len() as int) =~= xs);
    assert(ys.take(ys.len() as int) =~= ys);
}

/// Counts of bin indices: entry `k` is how many indices equal `k`.
pub fn bin_counts(indices: &[usize], bins: usize) -> (counts: Vec<usize>)
    requires
        forall|i: int| 0 <= i < indices@.len() ==> indices@[i] < bins,
    ensures
        counts@.len() == bins,
        forall|k: int| 0 <= k < bins ==> counts@[k] == occurrences(indices@, k as usize),
        forall|k: int|
            0 <= k < bins ==> #[trigger] counts@[k] == Seq::new(indices@.len(), |i: int| i).filter(
                |i: int| indices@[i] == k,
            ).len(),
        total(counts@) == indices@.len(),
{
    let mut counts: Vec<usize> = vec![0usize; bins];
    proof {
        assert(counts@ =~= Seq::new(bins as nat, |i: int| 0usize));
        lemma_total_zeros(bins as nat);
    }
    let mut i: usize = 0;
    while i < indices.len()
        invariant
            0 <= i <= indices@.len(),
            forall|j: int| 0 <= j < indices@.len() ==> indices@[j] < bins,
            counts@.len() == bins,
            forall|k: int|
                0 <= k < bins ==> counts@[k] == occurrences(indices@.take(i as int), k as usize),
            total(counts@) == i,
        decreases indices@.len() - i,
    {
        let b = indices[i];
        proof {
            assert(indices@.take(i + 1).drop_last() =~= indices@.take(i as int));
            assert(counts@[b as int] <= i) by {
                lemma_occurrences_bound(indices@.take(i as int), b);
            }
            lemma_total_bump(counts@, b as int);
        }
        counts.set(b, counts[b] + 1);
        i = i + 1;
    }
    assert(indices@.take(indices@.len() as int) =~= indices@);
    assert forall|k: int| 0 <= k < bins implies #[trigger] counts@[k] == Seq::new(
        indices@.len(),
        |i: int| i,
    ).filter(|i: int| indices@[i] == k).len() by {
        lemma_occurrences_filter_positions(
            indices@,
            k,
            indices@.len(),
            Seq::new(indices@.len(), |i: int| i),
            |i: int| indices@[i] == k,
        );
    }
    counts
}

proof fn lemma_occurrences_bound<T>(s: Seq<T>, v: T)
    ensures
        occurrences(s, v) <= s.len(),
    decreases s.len(),
{
    if s.len() > 0 {
        lemma_occurrences_bound(s.drop_last(), v);
    }
}

/// An arrangement in increasing order is the first ordinal pattern: its
/// Lehmer code is 0.
pub proof fn lemma_increasing_code_zero(p: Seq<usize>)
    requires
        forall|i: int, j: int| 0 <= i < j < p.len() ==> p[i] < p[j],
    ensures
        lehmer_code_of(p) == 0,
{
    assert forall|i: int| 0 <= i <= p.len() implies lehmer_from(p, i) == 0 by {
        lemma_increasing_from(p, i);
    }
}

proof fn lemma_increasing_from(p: Seq<usize>, i: int)
    requires
        0 <= i <= p.len(),
        forall|a: int, b: int| 0 <= a < b < p.len() ==> p[a] < p[b],
    ensures
        lehmer_from(p, i) == 0,
    decreases p.len() - i,
{
    if i < p.len() {
        lemma_increasing_from(p, i + 1);
        lemma_no_smaller_after(p, i, i + 1);
    }
}

proof fn lemma_no_smaller_after(p: Seq<usize>, i: int, j: int)
    requires
        0 <= i < j <= p.len(),
        forall|a: int, b: int| 0 <= a < b < p.len() ==> p[a] < p[b],
    ensures
        smaller_after(p, i, j) == 0,
    decreases p.len() - j,
{
    if j < p.len() {
        lemma_no_smaller_after(p, i, j + 1);
    }
}

/// How many positions `i` hold `a` in `xs` and `b` in `ys`.
pub open spec fn pair_occurrences(xs: Seq<usize>, ys: Seq<usize>, a: usize, b: usize) -> nat
    decreases xs.len(),
{
    if xs.len() == 0 {
        0
    } else {
        pair_occurrences(xs.drop_last(), ys.take(xs.len() - 1), a, b) + (if xs.last() == a
            && ys[xs.len() - 1] == b { 1nat } else { 0nat })
    }
}

proof fn lemma_pair_occurrences_bound(xs: Seq<usize>, ys: Seq<usize>, a: usize, b: usize)
    ensures
        pair_occurrences(xs, ys, a, b) <= xs.len(),
    decreases xs.len(),
{
    if xs.len() > 0 {
        lemma_pair_occurrences_bound(xs.drop_last(), ys.take(xs.len() - 1), a, b);
    }
}

/// The sum of all cells of a grid of counts.
pub open spec fn grid_total(rows: Seq<Vec<usize>>) -> nat
    decreases rows.len(),
{
    if rows.len() == 0 {
        0
    } else {
        grid_total(rows.drop_last()) + total(rows.last()@)
    }
}

proof fn lemma_grid_replace(rows: Seq<Vec<usize>>, a: int, row: Vec<usize>)
    requires
        0 <= a < rows.len(),
    ensures
        grid_total(rows.update(a, row)) + total(rows[a]@) == grid_total(rows) + total(row@),
    decreases rows.len(),
{
    let t = rows.update(a, row);
    if a < rows.len() - 1 {
        assert(t.drop_last() =~= rows.drop_last().update(a, row));
        lemma_grid_replace(rows.drop_last(), a, row);
    } else {
        assert(t.drop_last() =~= rows.drop_last());
    }
}

proof fn lemma_grid_zeros(rows: Seq<Vec<usize>>, bins: nat)
    requires
        forall|a: int| 0 <= a < rows.len() ==> (#[trigger] rows[a])@ == Seq::new(bins, |i: int| 0usize),
    ensures
        grid_total(rows) == 0,
    decreases rows.len(),
{
    if rows.len() > 0 {
        lemma_grid_zeros(rows.drop_last(), bins);
        lemma_total_zeros(bins);
    }
}

/// Joint counts of paired bin indices: entry `[a][b]` is how many
/// positions hold `a` in `xs` and `b` in `ys`.
pub fn joint_bin_counts(xs: &[usize], ys: &[usize], bins: usize) -> (counts: Vec<Vec<usize>>)
    requires
        xs@.len() == ys@.len(),
        forall|i: int| 0 <= i < xs@.len() ==> xs@[i] < bins && ys@[i] < bins,
    ensures
        counts@.len() == bins,
        forall|a: int| 0 <= a < bins ==> (#[trigger] counts@[a])@.len() == bins,
        forall|a: int, b: int|
            0 <= a < bins && 0 <= b < bins ==> #[trigger] counts@[a]@[b] == pair_occurrences(
                xs@,
                ys@,
                a as usize,
                b as usize,
            ),
        forall|a: int, b: int|
            0 <= a < bins && 0 <= b < bins ==> #[trigger] counts@[a]@[b] == Seq::new(xs@.len(), |i: int| i).filter(
                |i: int| xs@[i] == a && ys@[i] == b,
            ).len(),
        grid_total(counts@) == xs@.len(),
{
    let mut counts: Vec<Vec<usize>> = Vec::new();
    let mut r: usize = 0;
    while r < bins
        invariant
            0 <= r <= bins,
            counts@.len() == r,
            forall|a: int| 0 <= a < r ==> (#[trigger] counts@[a])@ == Seq::new(bins as nat, |i: int| 0usize),
        decreases bins - r,
    {
        let row: Vec<usize> = vec![0usize; bins];
        assert(row@ =~= Seq::new(bins as nat, |i: int| 0usize));
        counts.push(row);
        r = r + 1;
    }
    proof {
        lemma_grid_zeros(counts@, bins as nat);
    }
    let mut i: usize = 0;
    while i < xs.len()
        invariant
            xs@.len() == ys@.len(),
            0 <= i <= xs@.len(),
            forall|j: int| 0 <= j < xs@.len() ==> xs@[j] < bins && ys@[j] < bins,
            counts@.len() == bins,
            forall|a: int| 0 <= a < bins ==> (#[trigger] counts@[a])@.len() == bins,
            forall|a: int, b: int|
                0 <= a < bins && 0 <= b < bins ==> #[trigger] counts@[a]@[b] == pair_occurrences(
                    xs@.take(i as int),
                    ys@.take(i as int),
                    a as usize,
                    b as usize,
                ),
            grid_total(counts@) == i,
        decreases xs@.len() - i,
    {
        let a = xs[i];
        let b = ys[i];
        proof {
            assert(xs@.take(i + 1).drop_last() =~= xs@.take(i as int));
            assert(ys@.take(i + 1).take(i as int) =~= ys@.take(i as int));
            lemma_pair_occurrences_bound(xs@.take(i as int), ys@.take(i as int), a, b);
        }
        let ghost before = counts@;
        let mut row: Vec<usize> = Vec::new();
        std::mem::swap(&mut row, &mut counts[a]);
        let v = row[b];
        proof {
            lemma_total_bump(row@, b as int);
        }
        row.set(b, v + 1);
        let ghost new_row = row;
        counts.set(a, row);
        proof {
            assert(counts@ =~= before.update(a as int, new_row));
            lemma_grid_replace(before, a as int, new_row);
        }
        assert forall|a2: int, b2: int|
            0 <= a2 < bins && 0 <= b2 < bins implies #[trigger] counts@[a2]@[b2] == pair_occurrences(
                xs@.take(i + 1),
                ys@.take(i + 1),
                a2 as usize,
                b2 as usize,
            ) by {
            if a2 != a {
                assert(counts@[a2] == before[a2]);
            }
        }
        i = i + 1;
    }
    assert(xs@.take(xs@.len() as int) =~= xs@);
    assert(ys@.take(ys@.len() as int) =~= ys@);
    assert forall|a: int, b: int| 0 <= a < bins && 0 <= b < bins implies #[trigger] counts@[a]@[b]
        == Seq::new(xs@.len(), |i: int| i).filter(|i: int| xs@[i] == a && ys@[i] == b).len() by {
        lemma_pair_occurrences_filter_positions(
            xs@,
            ys@,
            a,
            b,
            xs@.len(),
            Seq::new(xs@.len(), |i: int| i),
            |i: int| xs@[i] == a && ys@[i] == b,
        );
    }
    counts
}

/// The bin that a raw index falls in: the index itself, or the last bin
/// for an index past the end (the largest value lands exactly one past it).
pub open spec fn clamp_bin(i: usize, bins: usize) -> usize {
    if i < bins {
        i
    } else {
        (bins - 1) as usize
    }
}

/// Every raw index of `s` moved into its bin.
pub open spec fn clamped(s: Seq<usize>, bins: usize) -> Seq<usize> {
    s.map_values(|i: usize| clamp_bin(i, bins))
}

/// The first `n` raw indices, each moved into its bin.
fn clamp_prefix(raw: &[usize], n: usize, bins: usize) -> (r: Vec<usize>)
    requires
        bins > 0,
        n <= raw@.len(),
    ensures
        r@ == clamped(raw@.take(n as int), bins),
        forall|i: int| 0 <= i < r@.len() ==> #[trigger] r@[i] < bins,
{
    let mut r: Vec<usize> = Vec::new();
    let mut i: usize = 0;
    while i < n
        invariant
            bins > 0,
            n <= raw@.len(),
            0 <= i <= n,
            r@ == clamped(raw@.take(i as int), bins),
            forall|k: int| 0 <= k < r@.len() ==> #[trigger] r@[k] < bins,
        decreases n - i,
    {
        let b = if raw[i] < bins {
            raw[i]
        } else {
            bins - 1
        };
        r.push(b);
        assert(r@ =~= clamped(raw@.take(i + 1), bins));
        i = i + 1;
    }
    r
}

/// Raw bin indices moved into their bins: nothing when there are no bins,
/// otherwise each index as it is, or the last bin for one past the end.
pub fn clamp_to_bins(raw: &[usize], bins: usize) -> (r: Vec<usize>)
    ensures
        bins == 0 ==> r@.len() == 0,
        bins > 0 ==> r@ == clamped(raw@, bins),
        forall|i: int| 0 <= i < r@.len() ==> #[trigger] r@[i] < bins,
{
    if bins == 0 {
        return Vec::new();
    }
    let r = clamp_prefix(raw, raw.len(), bins);
    assert(raw@.take(raw@.len() as int) =~= raw@);
    r
}

/// A sequence whose entries all equal `v` holds `v` once per entry.
proof fn lemma_occurrences_constant<T>(s: Seq<T>, v: T)
    requires
        forall|i: int| 0 <= i < s.len() ==> s[i] == v,
    ensures
        occurrences(s, v) == s.len(),
    decreases s.len(),
{
    if s.len() > 0 {
        lemma_occurrences_constant(s.drop_last(), v);
    }
}

/// Equal-width histogram counts from raw bin indices: no counts for no
/// values or no bins; otherwise one count per bin, an index past the last
/// bin counted in the last one, and every value counted once.
pub fn histogram_from_bins(raw: &[usize], bins: usize) -> (counts: Vec<usize>)
    ensures
        raw@.len() == 0 || bins == 0 ==> counts@.len() == 0,
        raw@.len() > 0 && bins > 0 ==> {
            &&& counts@.len() == bins
            &&& forall|k: int|
                0 <= k < bins ==> #[trigger] counts@[k] == occurrences(clamped(raw@, bins), k as usize)
            &&& total(counts@) == raw@.len()
        },
        raw@.len() > 0 && bins > 0 ==> forall|k: int|
            0 <= k < bins ==> #[trigger] counts@[k] == Seq::new(raw@.len(), |i: int| i).filter(
                |i: int|
                    if k < bins - 1 {
                        raw@[i] == k
                    } else {
                        raw@[i] >= bins - 1
                    },
            ).len(),
        raw@.len() > 0 && bins > 0 && (forall|i: int| 0 <= i < raw@.len() ==> raw@[i] == 0) ==> counts@[0]
            == raw@.len(),
{
    if raw.len() == 0 || bins == 0 {
        return Vec::new();
    }
    let idx = clamp_prefix(raw, raw.len(), bins);
    assert(raw@.take(raw@.len() as int) =~= raw@);
    let counts = bin_counts(&idx, bins);
    proof {
        if forall|i: int| 0 <= i < raw@.len() ==> raw@[i] == 0 {
            assert forall|i: int| 0 <= i < idx@.len() implies idx@[i] == 0usize by {
                assert(raw@[i] == 0);
            }
            lemma_occurrences_constant(idx@, 0usize);
        }
        assert(idx@.take(idx@.len() as int) =~= idx@);
        assert forall|k: int| 0 <= k < bins implies #[trigger] counts@[k] == Seq::new(
            raw@.len(),
            |i: int| i,
        ).filter(
            |i: int|
                if k < bins - 1 {
                    raw@[i] == k
                } else {
                    raw@[i] >= bins - 1
                },
        ).len() by {
            lemma_occurrences_filter_positions(
                idx@,
                k,
                idx@.len(),
                Seq::new(raw@.len(), |i: int| i),
                |i: int|
                    if k < bins - 1 {
                        raw@[i] == k
                    } else {
                        raw@[i] >= bins - 1
                    },
            );
        }
    }
    counts
}

/// Joint equal-width histogram from raw bin indices of two variables, over
/// their common length: no counts when that is 0 or there are no bins;
/// otherwise a `bins` by `bins` grid, indices past the last bin counted in
/// the last one, and every position counted once.
pub fn histogram_2d_from_bins(xs: &[usize], ys: &[usize], bins: usize) -> (counts: Vec<Vec<usize>>)
    ensures
        vstd::math::min(xs@.len() as int, ys@.len() as int) == 0 || bins == 0 ==> counts@.len() == 0,
        vstd::math::min(xs@.len() as int, ys@.len() as int) > 0 && bins > 0 ==> {
            let n = vstd::math::min(xs@.len() as int, ys@.len() as int);
            &&& counts@.len() == bins
            &&& forall|a: int| 0 <= a < bins ==> (#[trigger] counts@[a])@.len() == bins
            &&& forall|a: int, b: int|
                0 <= a < bins && 0 <= b < bins ==> #[trigger] counts@[a]@[b] == pair_occurrences(
                    clamped(xs@.take(n), bins),
                    clamped(ys@.take(n), bins),
                    a as usize,
                    b as usize,
                )
            &&& grid_total(counts@) == n
        },
        vstd::math::min(xs@.len() as int, ys@.len() as int) > 0 && bins > 0 ==> forall|a: int, b: int|
            0 <= a < bins && 0 <= b < bins ==> #[trigger] counts@[a]@[b] == Seq::new(
                vstd::math::min(xs@.len() as int, ys@.len() as int) as nat,
                |i: int| i,
            ).filter(
                |i: int|
                    (if a < bins - 1 {
                        xs@[i] == a
                    } else {
                        xs@[i] >= bins - 1
                    }) && (if b < bins - 1 {
                        ys@[i] == b
                    } else {
                        ys@[i] >= bins - 1
                    }),
            ).len(),
{
    let n = if xs.len() < ys.len() {
        xs.len()
    } else {
        ys.len()
    };
    if n == 0 || bins == 0 {
        return Vec::new();
    }
    let xi = clamp_prefix(xs, n, bins);
    let yi = clamp_prefix(ys, n, bins);
    let counts = joint_bin_counts(&xi, &yi, bins);
    proof {
        assert(n == vstd::math::min(xs@.len() as int, ys@.len() as int));
        assert(xi@.take(n as int) =~= xi@);
        assert(yi@.take(n as int) =~= yi@);
        assert forall|a: int, b: int| 0 <= a < bins && 0 <= b < bins implies #[trigger] counts@[a]@[b]
            == Seq::new(n as nat, |i: int| i).filter(
            |i: int|
                (if a < bins - 1 {
                    xs@[i] == a
                } else {
                    xs@[i] >= bins - 1
                }) && (if b < bins - 1 {
                    ys@[i] == b
                } else {
                    ys@[i] >= bins - 1
                }),
        ).len() by {
            lemma_pair_occurrences_filter_positions(
                xi@,
                yi@,
                a,
                b,
                n as nat,
                Seq::new(n as nat, |i: int| i),
                |i: int|
                    (if a < bins - 1 {
                        xs@[i] == a
                    } else {
                        xs@[i] >= bins - 1
                    }) && (if b < bins - 1 {
                        ys@[i] == b
                    } else {
                        ys@[i] >= bins - 1
                    }),
            );
        }
    }
    counts
}

proof fn lemma_occurrences_absent<T>(s: Seq<T>, v: T)
    requires
        forall|j: int| 0 <= j < s.len() ==> s[j] != v,
    ensures
        occurrences(s, v) == 0,
    decreases s.len(),
{
    if s.len() > 0 {
        lemma_occurrences_absent(s.drop_last(), v);
    }
}

/// The position of `key` among the keys of `r`, if it is there.
fn find_key(r: &[((usize, usize, usize), usize)], key: (usize, usize, usize)) -> (pos: Option<usize>)
    ensures
        pos matches Some(k) ==> k < r@.len() && r@[k as int].0 == key,
        pos is None ==> forall|x: int| 0 <= x < r@.len() ==> r@[x].0 != key,
{
    let mut k: usize = 0;
    while k < r.len()
        invariant
            0 <= k <= r@.len(),
            forall|x: int| 0 <= x < k ==> r@[x].0 != key,
        decreases r@.len() - k,
    {
        let entry = r[k].0;
        if entry.0 == key.0 && entry.1 == key.1 && entry.2 == key.2 {
            return Some(k);
        }
        k = k + 1;
    }
    None
}

/// The counts of a list of keyed counts, without the keys.
pub open spec fn counts_of<K>(r: Seq<(K, usize)>) -> Seq<usize> {
    r.map_values(|e: (K, usize)| e.1)
}

/// The triples `(a[i], b[i], c[i])`, position by position.
pub open spec fn triples(a: Seq<usize>, b: Seq<usize>, c: Seq<usize>) -> Seq<(usize, usize, usize)> {
    Seq::new(a.len(), |i: int| (a[i], b[i], c[i]))
}

/// Counts of the distinct triples `(a[i], b[i], c[i])`: each triple that
/// occurs appears once as a key, with how many positions hold it.
pub fn distinct_triple_counts(a: &[usize], b: &[usize], c: &[usize]) -> (r: Vec<((usize, usize, usize), usize)>)
    requires
        a@.len() == b@.len(),
        a@.len() == c@.len(),
    ensures
        forall|i: int, j: int| 0 <= i < j < r@.len() ==> r@[i].0 != r@[j].0,
        forall|k: int|
            0 <= k < r@.len() ==> 1 <= (#[trigger] r@[k]).1 && r@[k].1 == occurrences(
                triples(a@, b@, c@),
                r@[k].0,
            ),
        forall|i: int|
            0 <= i < a@.len() ==> exists|k: int|
                0 <= k < r@.len() && r@[k].0 == #[trigger] triples(a@, b@, c@)[i],
        total(counts_of(r@)) == a@.len(),
{
    let ghost t = triples(a@, b@, c@);
    let mut r: Vec<((usize, usize, usize), usize)> = Vec::new();
    let mut i: usize = 0;
    while i < a.len()
        invariant
            a@.len() == b@.len(),
            a@.len() == c@.len(),
            t == triples(a@, b@, c@),
            0 <= i <= a@.len(),
            forall|x: int, y: int| 0 <= x < y < r@.len() ==> r@[x].0 != r@[y].0,
            forall|k: int|
                0 <= k < r@.len() ==> 1 <= (#[trigger] r@[k]).1 && r@[k].1 == occurrences(
                    t.take(i as int),
                    r@[k].0,
                ),
            forall|j: int|
                0 <= j < i ==> exists|k: int| 0 <= k < r@.len() && r@[k].0 == #[trigger] t[j],
            total(counts_of(r@)) == i,
        decreases a@.len() - i,
    {
        let key = (a[i], b[i], c[i]);
        assert(key == t[i as int]);
        assert(t.take(i + 1).drop_last() =~= t.take(i as int));
        assert(t.take(i + 1).last() == key);
        let ghost before = r@;
        let pos = find_key(r.as_slice(), key);
        let found = pos.is_some();
        let k: usize = match pos {
            Some(k) => k,
            None => 0,
        };
        if found {
            proof {
                lemma_occurrences_bound(t.take(i as int), key);
            }
            let count = r[k].1;
            proof {
                lemma_total_bump(counts_of(before), k as int);
                assert(counts_of(before)[k as int] == count);
            }
            r.set(k, (key, count + 1));
            assert(counts_of(r@) =~= counts_of(before).update(k as int, (count + 1) as usize));
            assert forall|x: int|
                0 <= x < r@.len() implies 1 <= (#[trigger] r@[x]).1 && r@[x].1 == occurrences(
                t.take(i + 1),
                r@[x].0,
            ) by {
                if x != k {
                    assert(r@[x] == before[x]);
                }
            }
            assert forall|j: int| 0 <= j < i + 1 implies exists|x: int|
                0 <= x < r@.len() && r@[x].0 == #[trigger] t[j] by {
                if j < i {
                    let x = choose|x: int| 0 <= x < before.len() && before[x].0 == t[j];
                    assert(r@[x].0 == before[x].0);
                } else {
                    assert(r@[k as int].0 == t[j]);
                }
            }
        } else {
            proof {
                assert forall|j: int| 0 <= j < t.take(i as int).len() implies t.take(i as int)[j]
                    != key by {
                    let x = choose|x: int| 0 <= x < before.len() && before[x].0 == t[j];
                    assert(t.take(i as int)[j] == t[j]);
                }
                lemma_occurrences_absent(t.take(i as int), key);
            }
            r.push((key, 1));
            assert(counts_of(r@).drop_last() =~= counts_of(before));
            assert forall|x: int|
                0 <= x < r@.len() implies 1 <= (#[trigger] r@[x]).1 && r@[x].1 == occurrences(
                t.take(i + 1),
                r@[x].0,
            ) by {
                if x < before.len() {
                    assert(r@[x] == before[x]);
                }
            }
            assert forall|j: int| 0 <= j < i + 1 implies exists|x: int|
                0 <= x < r@.len() && r@[x].0 == #[trigger] t[j] by {
                if j < i {
                    let x = choose|x: int| 0 <= x < before.len() && before[x].0 == t[j];
                    assert(r@[x] == before[x]);
                } else {
                    assert(r@[before.len() as int].0 == t[j]);
                }
            }
        }
        i = i + 1;
    }
    assert(t.take(a@.len() as int) =~= t);
    r
}

} // verus!
