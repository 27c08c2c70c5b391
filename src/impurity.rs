//! Label tallies and the Gini impurity of a label sequence.
use vstd::prelude::*;

verus! {

/// Number of entries of `s` equal to `v`.
pub open spec fn count(s: Seq<i64>, v: i64) -> nat
    decreases s.len(),
{
    if s.len() == 0 {
        0
    } else {
        count(s.drop_last(), v) + if s.last() == v { 1nat } else { 0nat }
    }
}

/// Number of pairs `(i, j)` with `a[i] == b[j]`, which equals
/// `sum_v count(a, v) * count(b, v)` over the distinct values `v`.
pub open spec fn cross(a: Seq<i64>, b: Seq<i64>) -> nat
    decreases a.len(),
{
    if a.len() == 0 {
        0
    } else {
        cross(a.drop_last(), b) + count(b, a.last())
    }
}

/// Number of ordered pairs `(i, j)` with `s[i] == s[j]`: the sum of the
/// squared tallies of the distinct values of `s`.
pub open spec fn same_pairs(s: Seq<i64>) -> nat {
    cross(s, s)
}

/// Numerator of the Gini impurity `sum_v p(v) * (1 - p(v)) = 1 - sum_v p(v)^2`
/// over the denominator `gini_den(s)`.
pub open spec fn gini_num(s: Seq<i64>) -> int {
    s.len() * s.len() - same_pairs(s)
}

pub open spec fn gini_den(s: Seq<i64>) -> int {
    (s.len() * s.len()) as int
}

pub proof fn lemma_count_bound(s: Seq<i64>, v: i64)
    ensures
        count(s, v) <= s.len(),
    decreases s.len(),
{
    if s.len() > 0 {
        lemma_count_bound(s.drop_last(), v);
    }
}

pub proof fn lemma_count_take(s: Seq<i64>, v: i64, j: int)
    requires
        0 <= j < s.len(),
    ensures
        count(s.take(j + 1), v) == count(s.take(j), v) + if s[j] == v { 1nat } else { 0nat },
{
    assert(s.take(j + 1).drop_last() =~= s.take(j));
}

pub proof fn lemma_cross_bound(a: Seq<i64>, b: Seq<i64>)
    ensures
        cross(a, b) <= a.len() * b.len(),
    decreases a.len(),
{
    if a.len() > 0 {
        lemma_cross_bound(a.drop_last(), b);
        lemma_count_bound(b, a.last());
        assert((a.len() - 1) * b.len() + b.len() == a.len() * b.len()) by (nonlinear_arith);
    } else {
        assert(0 * b.len() == 0);
    }
}

/// Every tally of a constant sequence is its length.
pub proof fn lemma_count_constant(s: Seq<i64>, v: i64)
    requires
        forall|i: int| 0 <= i < s.len() ==> s[i] == v,
    ensures
        count(s, v) == s.len(),
    decreases s.len(),
{
    if s.len() > 0 {
        lemma_count_constant(s.drop_last(), v);
    }
}

/// A sequence whose entries all agree has impurity zero.
pub proof fn lemma_constant_is_pure(s: Seq<i64>, v: i64)
    requires
        forall|i: int| 0 <= i < s.len() ==> s[i] == v,
    ensures
        gini_num(s) == 0,
{
    lemma_count_constant(s, v);
    lemma_cross_constant(s, s, v);
}

proof fn lemma_cross_constant(a: Seq<i64>, s: Seq<i64>, v: i64)
    requires
        forall|i: int| 0 <= i < a.len() ==> a[i] == v,
        count(s, v) == s.len(),
    ensures
        cross(a, s) == a.len() * s.len(),
    decreases a.len(),
{
    if a.len() > 0 {
        lemma_cross_constant(a.drop_last(), s, v);
        assert(a.last() == v);
        assert((a.len() - 1) * s.len() + s.len() == a.len() * s.len()) by (nonlinear_arith);
    } else {
        assert(0 * s.len() == 0);
    }
}

/// `s` with every entry equal to `v` removed.
pub open spec fn without(s: Seq<i64>, v: i64) -> Seq<i64>
    decreases s.len(),
{
    if s.len() == 0 {
        seq![]
    } else {
        let r = without(s.drop_last(), v);
        if s.last() == v {
            r
        } else {
            r.push(s.last())
        }
    }
}

proof fn lemma_count_without(s: Seq<i64>, v: i64, x: i64)
    ensures
        count(without(s, v), x) == if x == v { 0 } else { count(s, x) },
        without(s, v).len() + count(s, v) == s.len(),
    decreases s.len(),
{
    if s.len() > 0 {
        lemma_count_without(s.drop_last(), v, x);
        let r = without(s.drop_last(), v);
        if s.last() != v {
            assert(r.push(s.last()).drop_last() =~= r);
        }
    }
}

proof fn lemma_count_present(s: Seq<i64>, i: int)
    requires
        0 <= i < s.len(),
    ensures
        count(s, s[i]) >= 1,
    decreases s.len(),
{
    if i < s.len() - 1 {
        lemma_count_present(s.drop_last(), i);
    }
}

/// Taking out one value takes its pairs out of the cross tally.
proof fn lemma_cross_without(a: Seq<i64>, b: Seq<i64>, v: i64)
    ensures
        cross(a, b) == cross(without(a, v), without(b, v)) + count(a, v) * count(b, v),
    decreases a.len(),
{
    if a.len() == 0 {
        assert(0 * count(b, v) == 0);
    } else {
        lemma_cross_without(a.drop_last(), b, v);
        lemma_count_without(b, v, a.last());
        let c = count(a.drop_last(), v);
        let k = count(b, v);
        if a.last() == v {
            assert((c + 1) * k == c * k + k) by (nonlinear_arith);
        } else {
            let wa = without(a.drop_last(), v);
            assert(wa.push(a.last()).drop_last() =~= wa);
        }
    }
}

/// Peels off the value of the first entry of `a`, or else of `b`.
proof fn lemma_peel(a: Seq<i64>, b: Seq<i64>) -> (v: i64)
    requires
        a.len() + b.len() > 0,
    ensures
        without(a, v).len() + without(b, v).len() < a.len() + b.len(),
        without(a, v).len() <= a.len(),
        without(b, v).len() <= b.len(),
{
    let v = if a.len() > 0 { a[0] } else { b[0] };
    lemma_count_without(a, v, v);
    lemma_count_without(b, v, v);
    if a.len() > 0 {
        lemma_count_present(a, 0);
    } else {
        lemma_count_present(b, 0);
    }
    v
}

/// The cross tally is symmetric.
pub proof fn lemma_cross_symmetric(a: Seq<i64>, b: Seq<i64>)
    ensures
        cross(a, b) == cross(b, a),
    decreases a.len() + b.len(),
{
    if a.len() + b.len() > 0 {
        let v = lemma_peel(a, b);
        lemma_cross_without(a, b, v);
        lemma_cross_without(b, a, v);
        lemma_cross_symmetric(without(a, v), without(b, v));
        assert(count(a, v) * count(b, v) == count(b, v) * count(a, v)) by (nonlinear_arith);
    }
}

/// `r^2 * cross(a, a) + l^2 * cross(b, b) - 2 * l * r * cross(a, b)` is the
/// sum over the values `v` of `(r * count(a, v) - l * count(b, v))^2`, so it
/// is never negative.
pub proof fn lemma_cross_quadratic(a: Seq<i64>, b: Seq<i64>, l: int, r: int)
    ensures
        r * r * cross(a, a) + l * l * cross(b, b) - 2 * l * r * cross(a, b) >= 0,
    decreases a.len() + b.len(),
{
    if a.len() + b.len() == 0 {
        assert(r * r * 0 + l * l * 0 - 2 * l * r * 0 == 0) by (nonlinear_arith);
    } else {
        let v = lemma_peel(a, b);
        let a2 = without(a, v);
        let b2 = without(b, v);
        lemma_cross_without(a, a, v);
        lemma_cross_without(b, b, v);
        lemma_cross_without(a, b, v);
        lemma_cross_quadratic(a2, b2, l, r);
        let ca = count(a, v) as int;
        let cb = count(b, v) as int;
        let paa = cross(a2, a2) as int;
        let pbb = cross(b2, b2) as int;
        let pab = cross(a2, b2) as int;
        let d = r * ca - l * cb;
        assert(d * d >= 0) by (nonlinear_arith);
        assert(r * r * (paa + ca * ca) == r * r * paa + (r * ca) * (r * ca)) by (nonlinear_arith);
        assert(l * l * (pbb + cb * cb) == l * l * pbb + (l * cb) * (l * cb)) by (nonlinear_arith);
        assert(2 * l * r * (pab + ca * cb) == 2 * l * r * pab + 2 * (r * ca) * (l * cb)) by (nonlinear_arith);
        assert(d * d == (r * ca) * (r * ca) + (l * cb) * (l * cb) - 2 * (r * ca) * (l * cb)) by (nonlinear_arith)
            requires
                d == r * ca - l * cb,
        ;
    }
}

/// Counts the entries of `s` equal to `v`.
pub fn count_of(s: &Vec<i64>, v: i64) -> (r: u64)
    requires
        s.len() <= u64::MAX,
    ensures
        r == count(s@, v),
{
    let mut c: u64 = 0;
    let mut j: usize = 0;
    while j < s.len()
        invariant
            j <= s.len() <= u64::MAX,
            c == count(s@.take(j as int), v),
        decreases s.len() - j,
    {
        proof {
            lemma_count_take(s@, v, j as int);
            lemma_count_bound(s@.take(j as int), v);
        }
        if s[j] == v {
            c = c + 1;
        }
        j = j + 1;
    }
    assert(s@.take(s.len() as int) =~= s@);
    c
}


/// Largest number of rows a training set may have: it keeps every exact
/// impurity comparison within 128-bit arithmetic.
pub const MAX_ROWS: usize = 1048576;

/// Sum of the squared tallies of the distinct values of `s`.
pub fn same_pairs_of(s: &Vec<i64>) -> (r: u64)
    requires
        s.len() <= MAX_ROWS,
    ensures
        r == same_pairs(s@),
        r <= s.len() * s.len(),
{
    let mut p: u64 = 0;
    let mut i: usize = 0;
    while i < s.len()
        invariant
            i <= s.len() <= MAX_ROWS,
            p == cross(s@.take(i as int), s@),
        decreases s.len() - i,
    {
        proof {
            assert(s@.take(i + 1).drop_last() =~= s@.take(i as int));
            lemma_cross_bound(s@.take(i as int), s@);
            lemma_count_bound(s@, s@[i as int]);
            assert(i * s.len() + s.len() <= MAX_ROWS * MAX_ROWS) by (nonlinear_arith)
                requires
                    i < s.len() <= MAX_ROWS,
            ;
        }
        let c = count_of(s, s[i]);
        p = p + c;
        i = i + 1;
    }
    proof {
        assert(s@.take(s.len() as int) =~= s@);
        lemma_cross_bound(s@, s@);
    }
    p
}

/// The Gini impurity `sum_v p(v) * (1 - p(v))` of a non-empty label
/// sequence, as the exact fraction `(numerator, denominator)`; the numerator
/// is zero exactly on a pure sequence.
pub fn gini(labels: &Vec<i64>) -> (r: (u64, u64))
    requires
        0 < labels.len() <= MAX_ROWS,
    ensures
        r.0 == gini_num(labels@),
        r.1 == gini_den(labels@),
        r.1 > 0,
{
    let n = labels.len() as u64;
    assert(n * n <= MAX_ROWS * MAX_ROWS) by (nonlinear_arith)
        requires
            n <= MAX_ROWS,
    ;
    assert(n * n > 0) by (nonlinear_arith)
        requires
            n > 0,
    ;
    let p = same_pairs_of(labels);
    (n * n - p, n * n)
}

/// `v` is the plurality label of `s`: it occurs at some index `i`, no value
/// occurs more often, and every value seen before index `i` occurs strictly
/// less often (ties go to the value seen first).
pub open spec fn is_plurality(s: Seq<i64>, v: i64) -> bool {
    exists|i: int|
        #![trigger s[i]]
        0 <= i < s.len() && s[i] == v && (forall|j: int|
            0 <= j < s.len() ==> count(s, #[trigger] s[j]) <= count(s, v)) && (forall|j: int|
            0 <= j < i ==> count(s, #[trigger] s[j]) < count(s, v))
}

/// The most frequent label of `s`, ties going to the one seen first.
pub open spec fn plurality(s: Seq<i64>) -> i64 {
    choose|v: i64| is_plurality(s, v)
}

/// The plurality label is unique.
pub proof fn lemma_plurality_unique(s: Seq<i64>, v: i64, w: i64)
    requires
        is_plurality(s, v),
        is_plurality(s, w),
    ensures
        v == w,
{
    let i = choose|i: int|
        #![trigger s[i]]
        0 <= i < s.len() && s[i] == v && (forall|j: int|
            0 <= j < s.len() ==> count(s, #[trigger] s[j]) <= count(s, v)) && (forall|j: int|
            0 <= j < i ==> count(s, #[trigger] s[j]) < count(s, v));
    let k = choose|k: int|
        #![trigger s[k]]
        0 <= k < s.len() && s[k] == w && (forall|j: int|
            0 <= j < s.len() ==> count(s, #[trigger] s[j]) <= count(s, w)) && (forall|j: int|
            0 <= j < k ==> count(s, #[trigger] s[j]) < count(s, w));
    assert(count(s, s[i]) <= count(s, w));
    assert(count(s, s[k]) <= count(s, v));
    if i < k {
        assert(count(s, s[i]) < count(s, w));
    } else if k < i {
        assert(count(s, s[k]) < count(s, v));
    }
}

/// A constant non-empty sequence has its value as plurality label.
pub proof fn lemma_plurality_constant(s: Seq<i64>, v: i64)
    requires
        s.len() > 0,
        forall|i: int| 0 <= i < s.len() ==> s[i] == v,
    ensures
        plurality(s) == v,
{
    lemma_count_constant(s, v);
    assert(s[0] == v);
    assert(is_plurality(s, v));
    lemma_plurality_unique(s, v, plurality(s));
}

/// The most frequent label of a non-empty sequence; among equally frequent
/// labels, the one that occurs first.
pub fn plurality_of(s: &Vec<i64>) -> (r: i64)
    requires
        0 < s.len() <= MAX_ROWS,
    ensures
        is_plurality(s@, r),
        r == plurality(s@),
{
    let mut best = s[0];
    let mut best_c = count_of(s, best);
    let ghost mut at: int = 0;
    let mut i: usize = 1;
    while i < s.len()
        invariant
            1 <= i <= s.len() <= MAX_ROWS,
            0 <= at < i,
            s@[at] == best,
            best_c == count(s@, best),
            forall|j: int| 0 <= j < i ==> count(s@, #[trigger] s@[j]) <= best_c,
            forall|j: int| 0 <= j < at ==> count(s@, #[trigger] s@[j]) < best_c,
        decreases s.len() - i,
    {
        let c = count_of(s, s[i]);
        if c > best_c {
            best = s[i];
            best_c = c;
            proof {
                at = i as int;
            }
        }
        i = i + 1;
    }
    assert(s@[at] == best);
    proof {
        lemma_plurality_unique(s@, best, plurality(s@));
    }
    best
}

} // verus!
