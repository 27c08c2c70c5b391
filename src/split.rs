//! Exhaustive search for the split of a node's rows that minimises the
//! weighted Gini impurity of the two sides.
use vstd::prelude::*;
use vstd::multiset::Multiset;
use vstd::seq_lib::to_multiset_build;
use crate::impurity::{
    cross, gini, gini_den, gini_num, lemma_cross_bound, lemma_cross_quadratic, lemma_cross_symmetric,
    MAX_ROWS,
};

verus! {

/// A table of feature rows as sequences.
pub open spec fn view_rows(x: Seq<Vec<i64>>) -> Seq<Seq<i64>> {
    x.map_values(|r: Vec<i64>| r@)
}

/// Every row has `m` features and there is one label per row.
pub open spec fn table_ok(rows: Seq<Seq<i64>>, labels: Seq<i64>, m: usize) -> bool {
    &&& labels.len() == rows.len()
    &&& forall|i: int| 0 <= i < rows.len() ==> (#[trigger] rows[i]).len() == m
}

/// Every index names a row of a table with `n` rows.
pub open spec fn idx_ok(idx: Seq<usize>, n: int) -> bool {
    forall|k: int| 0 <= k < idx.len() ==> (#[trigger] idx[k]) < n
}

/// The rows among `idx` whose feature `f` is `<= t` (`left`) or `> t`
/// (`!left`), in their order in `idx`.
pub open spec fn side(rows: Seq<Seq<i64>>, idx: Seq<usize>, f: usize, t: i64, left: bool) -> Seq<usize>
    decreases idx.len(),
{
    if idx.len() == 0 {
        seq![]
    } else {
        let rest = side(rows, idx.drop_last(), f, t, left);
        if (rows[idx.last() as int][f as int] <= t) == left {
            rest.push(idx.last())
        } else {
            rest
        }
    }
}

/// The labels of the rows `idx`.
pub open spec fn labels_at(labels: Seq<i64>, idx: Seq<usize>) -> Seq<i64> {
    idx.map_values(|i: usize| labels[i as int])
}

/// `t` is the value of feature `f` in one of the first `n` rows of `idx`.
pub open spec fn appears(rows: Seq<Seq<i64>>, idx: Seq<usize>, f: usize, t: i64, n: int) -> bool {
    exists|k: int| 0 <= k < n && #[trigger] rows[idx[k] as int][f as int] == t
}

/// `(f, t)` is a candidate split of the rows `idx` that leaves neither side
/// empty.
pub open spec fn admissible(rows: Seq<Seq<i64>>, idx: Seq<usize>, m: usize, f: usize, t: i64) -> bool {
    &&& f < m
    &&& appears(rows, idx, f, t, idx.len() as int)
    &&& side(rows, idx, f, t, true).len() > 0
    &&& side(rows, idx, f, t, false).len() > 0
}

/// The weighted impurity `(|L| * gini(L) + |R| * gini(R)) / (|L| + |R|)` of
/// the sides `l` and `r`, as an exact fraction `(numerator, denominator)`.
pub open spec fn cost_of_sides(l: Seq<i64>, r: Seq<i64>) -> (int, int) {
    (gini_num(l) * r.len() + gini_num(r) * l.len(), ((l.len() + r.len()) * l.len() * r.len()) as int)
}

/// The weighted impurity of splitting the rows `idx` on `(f, t)`.
pub open spec fn cost(rows: Seq<Seq<i64>>, labels: Seq<i64>, idx: Seq<usize>, f: usize, t: i64) -> (int, int) {
    cost_of_sides(
        labels_at(labels, side(rows, idx, f, t, true)),
        labels_at(labels, side(rows, idx, f, t, false)),
    )
}

/// `a < b` for fractions with positive denominators.
pub open spec fn frac_lt(a: (int, int), b: (int, int)) -> bool {
    a.0 * b.1 < b.0 * a.1
}

/// `a <= b` for fractions with positive denominators.
pub open spec fn frac_le(a: (int, int), b: (int, int)) -> bool {
    a.0 * b.1 <= b.0 * a.1
}

/// `(f1, t1)` comes before `(f2, t2)` in the scan order: by feature, then by
/// threshold.
pub open spec fn scan_before(f1: usize, t1: i64, f2: usize, t2: i64) -> bool {
    f1 < f2 || (f1 == f2 && t1 < t2)
}

/// `(f, t)` is admissible, no admissible split costs less, and every
/// admissible split before it in the scan order costs strictly more.
pub open spec fn is_best_split(rows: Seq<Seq<i64>>, labels: Seq<i64>, idx: Seq<usize>, m: usize, f: usize, t: i64) -> bool {
    &&& admissible(rows, idx, m, f, t)
    &&& forall|f2: usize, t2: i64| #[trigger] admissible(rows, idx, m, f2, t2) ==> {
        &&& frac_le(cost(rows, labels, idx, f, t), cost(rows, labels, idx, f2, t2))
        &&& scan_before(f2, t2, f, t) ==> frac_lt(cost(rows, labels, idx, f, t), cost(rows, labels, idx, f2, t2))
    }
}

/// The split chosen for the rows `idx`, or `None` when every candidate
/// leaves one side empty.
pub open spec fn best_split_of(rows: Seq<Seq<i64>>, labels: Seq<i64>, idx: Seq<usize>, m: usize) -> Option<(usize, i64)> {
    if exists|p: (usize, i64)| is_best_split(rows, labels, idx, m, p.0, p.1) {
        Some(choose|p: (usize, i64)| is_best_split(rows, labels, idx, m, p.0, p.1))
    } else {
        None
    }
}

/// Every routed row goes to the side its feature value says, and together
/// the two sides hold exactly the rows of `idx`.
pub proof fn lemma_side_partition(rows: Seq<Seq<i64>>, idx: Seq<usize>, f: usize, t: i64)
    ensures
        side(rows, idx, f, t, true).len() + side(rows, idx, f, t, false).len() == idx.len(),
        side(rows, idx, f, t, true).to_multiset().add(side(rows, idx, f, t, false).to_multiset())
            =~= idx.to_multiset(),
        forall|j: int| 0 <= j < side(rows, idx, f, t, true).len()
            ==> rows[#[trigger] side(rows, idx, f, t, true)[j] as int][f as int] <= t,
        forall|j: int| 0 <= j < side(rows, idx, f, t, false).len()
            ==> rows[#[trigger] side(rows, idx, f, t, false)[j] as int][f as int] > t,
    decreases idx.len(),
{
    broadcast use to_multiset_build;
    if idx.len() == 0 {
        broadcast use vstd::seq_lib::to_multiset_contains;
        assert(idx.to_multiset() =~= Multiset::empty());
        assert(side(rows, idx, f, t, true).to_multiset() =~= Multiset::empty());
        assert(side(rows, idx, f, t, false).to_multiset() =~= Multiset::empty());
    } else {
        lemma_side_partition(rows, idx.drop_last(), f, t);
        assert(idx =~= idx.drop_last().push(idx.last()));
        assert(idx.to_multiset() =~= idx.drop_last().to_multiset().insert(idx.last()));
    }
}

/// The rows of each side are rows of `idx`.
pub proof fn lemma_side_idx_ok(rows: Seq<Seq<i64>>, idx: Seq<usize>, f: usize, t: i64, left: bool, n: int)
    requires
        idx_ok(idx, n),
    ensures
        idx_ok(side(rows, idx, f, t, left), n),
        side(rows, idx, f, t, left).len() <= idx.len(),
    decreases idx.len(),
{
    if idx.len() > 0 {
        lemma_side_idx_ok(rows, idx.drop_last(), f, t, left, n);
    }
}

/// A best split, when there is one, is unique.
pub proof fn lemma_best_split_unique(rows: Seq<Seq<i64>>, labels: Seq<i64>, idx: Seq<usize>, m: usize, f: usize, t: i64, g: usize, u: i64)
    requires
        is_best_split(rows, labels, idx, m, f, t),
        is_best_split(rows, labels, idx, m, g, u),
    ensures
        f == g && t == u,
{
    assert(admissible(rows, idx, m, g, u));
    assert(admissible(rows, idx, m, f, t));
}

proof fn lemma_frac_trans(a: (int, int), b: (int, int), c: (int, int))
    requires
        a.1 > 0,
        b.1 > 0,
        c.1 > 0,
    ensures
        frac_le(a, b) && frac_le(b, c) ==> frac_le(a, c),
        frac_lt(a, b) && frac_le(b, c) ==> frac_lt(a, c),
        frac_le(a, b) && frac_lt(b, c) ==> frac_lt(a, c),
{
    let (a0, a1) = a;
    let (b0, b1) = b;
    let (c0, c1) = c;
    if frac_le(a, b) && frac_le(b, c) {
        assert(a0 * b1 * c1 <= b0 * a1 * c1) by (nonlinear_arith)
            requires a0 * b1 <= b0 * a1, c1 > 0;
        assert(b0 * a1 * c1 <= c0 * b1 * a1) by (nonlinear_arith)
            requires b0 * c1 <= c0 * b1, a1 > 0;
        assert(a0 * c1 <= c0 * a1) by (nonlinear_arith)
            requires a0 * b1 * c1 <= b0 * a1 * c1, b0 * a1 * c1 <= c0 * b1 * a1, b1 > 0;
    }
    if frac_lt(a, b) && frac_le(b, c) {
        assert(a0 * b1 * c1 < b0 * a1 * c1) by (nonlinear_arith)
            requires a0 * b1 < b0 * a1, c1 > 0;
        assert(b0 * a1 * c1 <= c0 * b1 * a1) by (nonlinear_arith)
            requires b0 * c1 <= c0 * b1, a1 > 0;
        assert(a0 * c1 < c0 * a1) by (nonlinear_arith)
            requires a0 * b1 * c1 <= b0 * a1 * c1, b0 * a1 * c1 <= c0 * b1 * a1,
                a0 * b1 * c1 < b0 * a1 * c1 || b0 * a1 * c1 < c0 * b1 * a1, b1 > 0;
    }
    if frac_le(a, b) && frac_lt(b, c) {
        assert(a0 * b1 * c1 <= b0 * a1 * c1) by (nonlinear_arith)
            requires a0 * b1 <= b0 * a1, c1 > 0;
        assert(b0 * a1 * c1 < c0 * b1 * a1) by (nonlinear_arith)
            requires b0 * c1 < c0 * b1, a1 > 0;
        assert(a0 * c1 < c0 * a1) by (nonlinear_arith)
            requires a0 * b1 * c1 <= b0 * a1 * c1, b0 * a1 * c1 <= c0 * b1 * a1,
                a0 * b1 * c1 < b0 * a1 * c1 || b0 * a1 * c1 < c0 * b1 * a1, b1 > 0;
    }
}

/// Splits the rows `idx` into those whose feature `f` is `<= t` and the rest.
pub fn partition(rows: &Vec<Vec<i64>>, idx: &Vec<usize>, f: usize, t: i64) -> (r: (Vec<usize>, Vec<usize>))
    requires
        forall|k: int| 0 <= k < idx.len() ==> (#[trigger] idx@[k]) < rows.len() && f < rows@[idx@[k] as int].len(),
    ensures
        r.0@ == side(view_rows(rows@), idx@, f, t, true),
        r.1@ == side(view_rows(rows@), idx@, f, t, false),
{
    let ghost tab = view_rows(rows@);
    let mut l: Vec<usize> = Vec::new();
    let mut g: Vec<usize> = Vec::new();
    let mut k: usize = 0;
    while k < idx.len()
        invariant
            k <= idx.len(),
            tab == view_rows(rows@),
            forall|k: int| 0 <= k < idx.len() ==> (#[trigger] idx@[k]) < rows.len() && f < rows@[idx@[k] as int].len(),
            l@ == side(tab, idx@.take(k as int), f, t, true),
            g@ == side(tab, idx@.take(k as int), f, t, false),
        decreases idx.len() - k,
    {
        let i = idx[k];
        assert(idx@.take(k + 1).drop_last() =~= idx@.take(k as int));
        assert(tab[i as int] == rows@[i as int]@);
        if rows[i][f] <= t {
            l.push(i);
        } else {
            g.push(i);
        }
        k = k + 1;
    }
    assert(idx@.take(idx.len() as int) =~= idx@);
    (l, g)
}

/// The labels of the rows `idx`.
pub fn gather(labels: &Vec<i64>, idx: &Vec<usize>) -> (r: Vec<i64>)
    requires
        idx_ok(idx@, labels.len() as int),
    ensures
        r@ == labels_at(labels@, idx@),
{
    let mut r: Vec<i64> = Vec::new();
    let mut k: usize = 0;
    while k < idx.len()
        invariant
            k <= idx.len(),
            idx_ok(idx@, labels.len() as int),
            r@ == labels_at(labels@, idx@.take(k as int)),
        decreases idx.len() - k,
    {
        r.push(labels[idx[k]]);
        k = k + 1;
        assert(labels_at(labels@, idx@.take(k as int)) =~= r@);
    }
    assert(idx@.take(idx.len() as int) =~= idx@);
    r
}


proof fn lemma_cost_den_pos(rows: Seq<Seq<i64>>, labels: Seq<i64>, idx: Seq<usize>, m: usize, f: usize, t: i64)
    requires
        admissible(rows, idx, m, f, t),
    ensures
        cost(rows, labels, idx, f, t).1 > 0,
{
    let l = labels_at(labels, side(rows, idx, f, t, true)).len();
    let r = labels_at(labels, side(rows, idx, f, t, false)).len();
    assert((l + r) * l * r > 0) by (nonlinear_arith)
        requires l > 0, r > 0;
}

/// The weighted impurity of splitting the rows `idx` on `(f, t)`, as an
/// exact fraction, or `None` when one side would be empty.
pub fn split_cost(rows: &Vec<Vec<i64>>, labels: &Vec<i64>, idx: &Vec<usize>, m: usize, f: usize, t: i64) -> (r: Option<(u128, u128)>)
    requires
        table_ok(view_rows(rows@), labels@, m),
        idx_ok(idx@, rows.len() as int),
        idx.len() <= MAX_ROWS,
        f < m,
    ensures
        r is Some <==> (side(view_rows(rows@), idx@, f, t, true).len() > 0 && side(view_rows(rows@), idx@, f, t, false).len() > 0),
        r matches Some(c) ==> c.0 == cost(view_rows(rows@), labels@, idx@, f, t).0
            && c.1 == cost(view_rows(rows@), labels@, idx@, f, t).1
            && c.0 <= 0x4000_0000_0000_0000 && c.1 <= 0x4000_0000_0000_0000,
{
    let ghost tab = view_rows(rows@);
    assert forall|k: int| 0 <= k < idx.len() implies (#[trigger] idx@[k]) < rows.len() && f < rows@[idx@[k] as int].len() by {
        assert(tab[idx@[k] as int] == rows@[idx@[k] as int]@);
    }
    let (lo, hi) = partition(rows, idx, f, t);
    if lo.len() == 0 || hi.len() == 0 {
        return None;
    }
    proof {
        lemma_side_partition(tab, idx@, f, t);
        lemma_side_idx_ok(tab, idx@, f, t, true, rows.len() as int);
        lemma_side_idx_ok(tab, idx@, f, t, false, rows.len() as int);
    }
    let ll = gather(labels, &lo);
    let rl = gather(labels, &hi);
    let (gl, _) = gini(&ll);
    let (gr, _) = gini(&rl);
    let nl = ll.len() as u128;
    let nr = rl.len() as u128;
    proof {
        lemma_cross_bound(ll@, ll@);
        lemma_cross_bound(rl@, rl@);
        assert(gl * nr + gr * nl <= 0x4000_0000_0000_0000 && (nl + nr) * nl <= 0x4000_0000_0000_0000
            && (nl + nr) * nl * nr <= 0x4000_0000_0000_0000)
            by (nonlinear_arith)
            requires
                gl <= nl * nl,
                gr <= nr * nr,
                nl + nr <= MAX_ROWS,
                nl <= MAX_ROWS,
                nr <= MAX_ROWS,
        ;
    }
    Some((gl as u128 * nr + gr as u128 * nl, (nl + nr) * nl * nr))
}

/// The candidates `(f2, t2)` that the scan has visited before position `k` of
/// feature `f`.
pub open spec fn scanned(rows: Seq<Seq<i64>>, idx: Seq<usize>, f: int, k: int, f2: usize, t2: i64) -> bool {
    (f2 < f && appears(rows, idx, f2, t2, idx.len() as int)) || (f2 == f && appears(rows, idx, f2, t2, k))
}

/// What the scan knows at position `k` of feature `f`: with no split found,
/// no visited candidate is admissible; otherwise `(bf, bt)` costs `(bn, bd)`
/// and is best among the visited candidates.
pub open spec fn scan_ok(
    rows: Seq<Seq<i64>>, labels: Seq<i64>, idx: Seq<usize>, m: usize, f: int, k: int,
    found: bool, bf: usize, bt: i64, bn: int, bd: int,
) -> bool {
    if !found {
        forall|f2: usize, t2: i64| #[trigger] admissible(rows, idx, m, f2, t2) ==> !scanned(rows, idx, f, k, f2, t2)
    } else {
        &&& admissible(rows, idx, m, bf, bt)
        &&& cost(rows, labels, idx, bf, bt) == (bn, bd)
        &&& bf <= f
        &&& forall|f2: usize, t2: i64| #[trigger] admissible(rows, idx, m, f2, t2) && scanned(rows, idx, f, k, f2, t2) ==> {
            &&& frac_le((bn, bd), cost(rows, labels, idx, f2, t2))
            &&& scan_before(f2, t2, bf, bt) ==> frac_lt((bn, bd), cost(rows, labels, idx, f2, t2))
        }
    }
}

proof fn lemma_scanned_step(rows: Seq<Seq<i64>>, idx: Seq<usize>, f: usize, k: int, f2: usize, t2: i64)
    requires
        0 <= k < idx.len(),
    ensures
        scanned(rows, idx, f as int, k, f2, t2) ==> scanned(rows, idx, f as int, k + 1, f2, t2),
        scanned(rows, idx, f as int, k + 1, f2, t2) ==> scanned(rows, idx, f as int, k, f2, t2)
            || (f2 == f && t2 == rows[idx[k] as int][f as int]),
        scanned(rows, idx, f as int, k + 1, f, rows[idx[k] as int][f as int]),
{
    if scanned(rows, idx, f as int, k + 1, f2, t2) && f2 == f && !appears(rows, idx, f2, t2, k) {
        let k2 = choose|k2: int| 0 <= k2 < k + 1 && #[trigger] rows[idx[k2] as int][f2 as int] == t2;
        assert(k2 == k);
    }
    assert(rows[idx[k] as int][f as int] == rows[idx[k] as int][f as int]);
}

/// The scan moves on without changing its choice.
proof fn lemma_scan_keep(
    rows: Seq<Seq<i64>>, labels: Seq<i64>, idx: Seq<usize>, m: usize, f: usize, k: int,
    found: bool, bf: usize, bt: i64, bn: int, bd: int,
)
    requires
        scan_ok(rows, labels, idx, m, f as int, k, found, bf, bt, bn, bd),
        0 <= k < idx.len(),
        admissible(rows, idx, m, f, rows[idx[k] as int][f as int]) ==> found && {
            let c = cost(rows, labels, idx, f, rows[idx[k] as int][f as int]);
            !frac_lt(c, (bn, bd)) && !(c.0 * bd == bn * c.1 && bf == f && rows[idx[k] as int][f as int] < bt)
        },
    ensures
        scan_ok(rows, labels, idx, m, f as int, k + 1, found, bf, bt, bn, bd),
{
    let t = rows[idx[k] as int][f as int];
    if !found {
        assert forall|f2: usize, t2: i64| #[trigger] admissible(rows, idx, m, f2, t2) implies !scanned(rows, idx, f as int, k + 1, f2, t2) by {
            lemma_scanned_step(rows, idx, f, k, f2, t2);
        }
    } else {
        assert forall|f2: usize, t2: i64| #[trigger] admissible(rows, idx, m, f2, t2) && scanned(rows, idx, f as int, k + 1, f2, t2) implies {
            &&& frac_le((bn, bd), cost(rows, labels, idx, f2, t2))
            &&& scan_before(f2, t2, bf, bt) ==> frac_lt((bn, bd), cost(rows, labels, idx, f2, t2))
        } by {
            lemma_scanned_step(rows, idx, f, k, f2, t2);
        }
    }
}

/// The scan takes the candidate at position `k` as its new choice.
proof fn lemma_scan_take(
    rows: Seq<Seq<i64>>, labels: Seq<i64>, idx: Seq<usize>, m: usize, f: usize, k: int,
    found: bool, bf: usize, bt: i64, bn: int, bd: int,
)
    requires
        scan_ok(rows, labels, idx, m, f as int, k, found, bf, bt, bn, bd),
        0 <= k < idx.len(),
        admissible(rows, idx, m, f, rows[idx[k] as int][f as int]),
        found ==> {
            let c = cost(rows, labels, idx, f, rows[idx[k] as int][f as int]);
            frac_lt(c, (bn, bd)) || (c.0 * bd == bn * c.1 && bf == f && rows[idx[k] as int][f as int] < bt)
        },
    ensures
        ({
            let t = rows[idx[k] as int][f as int];
            let c = cost(rows, labels, idx, f, t);
            scan_ok(rows, labels, idx, m, f as int, k + 1, true, f, t, c.0, c.1)
        }),
{
    let t = rows[idx[k] as int][f as int];
    let c = cost(rows, labels, idx, f, t);
    lemma_cost_den_pos(rows, labels, idx, m, f, t);
    if found {
        lemma_cost_den_pos(rows, labels, idx, m, bf, bt);
    }
    assert forall|f2: usize, t2: i64| #[trigger] admissible(rows, idx, m, f2, t2) && scanned(rows, idx, f as int, k + 1, f2, t2) implies {
        &&& frac_le(c, cost(rows, labels, idx, f2, t2))
        &&& scan_before(f2, t2, f, t) ==> frac_lt(c, cost(rows, labels, idx, f2, t2))
    } by {
        lemma_scanned_step(rows, idx, f, k, f2, t2);
        let q = cost(rows, labels, idx, f2, t2);
        lemma_cost_den_pos(rows, labels, idx, m, f2, t2);
        if f2 == f && t2 == t {
        } else {
            assert(scanned(rows, idx, f as int, k, f2, t2));
            assert(found);
            lemma_frac_trans(c, (bn, bd), q);
        }
    }
    lemma_scanned_step(rows, idx, f, k, f, t);
}

/// The split of the rows `idx` with the least weighted Gini impurity of its
/// two sides, among all features `f < m` and all thresholds that occur in
/// the rows; a split that leaves a side empty is never chosen, and ties go
/// to the lowest feature, then the lowest threshold.
pub fn best_split(rows: &Vec<Vec<i64>>, labels: &Vec<i64>, idx: &Vec<usize>, m: usize) -> (r: Option<(usize, i64)>)
    requires
        table_ok(view_rows(rows@), labels@, m),
        idx_ok(idx@, rows.len() as int),
        idx.len() <= MAX_ROWS,
    ensures
        r == best_split_of(view_rows(rows@), labels@, idx@, m),
        r matches Some(p) ==> is_best_split(view_rows(rows@), labels@, idx@, m, p.0, p.1),
        r is None <==> forall|f: usize, t: i64| !admissible(view_rows(rows@), idx@, m, f, t),
{
    let ghost tab = view_rows(rows@);
    let mut found = false;
    let mut bf: usize = 0;
    let mut bt: i64 = 0;
    let mut bn: u128 = 0;
    let mut bd: u128 = 0;
    let mut f: usize = 0;
    while f < m
        invariant
            tab == view_rows(rows@),
            table_ok(tab, labels@, m),
            idx_ok(idx@, rows.len() as int),
            idx.len() <= MAX_ROWS,
            f <= m,
            bn <= 0x4000_0000_0000_0000 && bd <= 0x4000_0000_0000_0000,
            scan_ok(tab, labels@, idx@, m, f as int, 0, found, bf, bt, bn as int, bd as int),
        decreases m - f,
    {
        let mut k: usize = 0;
        while k < idx.len()
            invariant
                tab == view_rows(rows@),
                table_ok(tab, labels@, m),
                idx_ok(idx@, rows.len() as int),
                idx.len() <= MAX_ROWS,
                f < m,
                k <= idx.len(),
                bn <= 0x4000_0000_0000_0000 && bd <= 0x4000_0000_0000_0000,
                scan_ok(tab, labels@, idx@, m, f as int, k as int, found, bf, bt, bn as int, bd as int),
            decreases idx.len() - k,
        {
            let i = idx[k];
            assert(tab[i as int] == rows@[i as int]@);
            let t = rows[i][f];
            assert(appears(tab, idx@, f, t, idx.len() as int)) by {
                assert(tab[idx@[k as int] as int][f as int] == t);
            }
            match split_cost(rows, labels, idx, m, f, t) {
                None => {
                    proof {
                        lemma_scan_keep(tab, labels@, idx@, m, f, k as int, found, bf, bt, bn as int, bd as int);
                    }
                },
                Some((cn, cd)) => {
                    assert(cn * bd <= 0x4000_0000_0000_0000 * 0x4000_0000_0000_0000) by (nonlinear_arith)
                        requires cn <= 0x4000_0000_0000_0000, bd <= 0x4000_0000_0000_0000;
                    assert(bn * cd <= 0x4000_0000_0000_0000 * 0x4000_0000_0000_0000) by (nonlinear_arith)
                        requires bn <= 0x4000_0000_0000_0000, cd <= 0x4000_0000_0000_0000;
                    if !found || cn * bd < bn * cd || (cn * bd == bn * cd && bf == f && t < bt) {
                        proof {
                            lemma_scan_take(tab, labels@, idx@, m, f, k as int, found, bf, bt, bn as int, bd as int);
                        }
                        found = true;
                        bf = f;
                        bt = t;
                        bn = cn;
                        bd = cd;
                    } else {
                        proof {
                            lemma_scan_keep(tab, labels@, idx@, m, f, k as int, found, bf, bt, bn as int, bd as int);
                        }
                    }
                },
            }
            k = k + 1;
        }
        assert forall|f2: usize, t2: i64| scanned(tab, idx@, f as int, idx.len() as int, f2, t2)
            == scanned(tab, idx@, f + 1, 0, f2, t2) by {}
        f = f + 1;
    }
    if found {
        assert(is_best_split(tab, labels@, idx@, m, bf, bt));
        proof {
            assert(is_best_split(tab, labels@, idx@, m, (bf, bt).0, (bf, bt).1));
            let p = choose|p: (usize, i64)| is_best_split(tab, labels@, idx@, m, p.0, p.1);
            lemma_best_split_unique(tab, labels@, idx@, m, bf, bt, p.0, p.1);
        }
        Some((bf, bt))
    } else {
        assert forall|f2: usize, t2: i64| !admissible(tab, idx@, m, f2, t2) by {
            if admissible(tab, idx@, m, f2, t2) {
                assert(scanned(tab, idx@, m as int, 0, f2, t2));
            }
        }
        assert(!exists|p: (usize, i64)| is_best_split(tab, labels@, idx@, m, p.0, p.1));
        None
    }
}


/// The labels of the rows `idx` are those of the two sides together, as
/// far as any cross tally can tell.
proof fn lemma_cross_sides(rows: Seq<Seq<i64>>, labels: Seq<i64>, idx: Seq<usize>, f: usize, t: i64, b: Seq<i64>)
    ensures
        cross(labels_at(labels, idx), b) == cross(labels_at(labels, side(rows, idx, f, t, true)), b)
            + cross(labels_at(labels, side(rows, idx, f, t, false)), b),
    decreases idx.len(),
{
    if idx.len() > 0 {
        let rest = idx.drop_last();
        lemma_cross_sides(rows, labels, rest, f, t, b);
        assert(labels_at(labels, idx).drop_last() =~= labels_at(labels, rest));
        let lo = side(rows, rest, f, t, true);
        let hi = side(rows, rest, f, t, false);
        assert(labels_at(labels, lo.push(idx.last())).drop_last() =~= labels_at(labels, lo));
        assert(labels_at(labels, hi.push(idx.last())).drop_last() =~= labels_at(labels, hi));
    }
}

/// Splitting never raises impurity: for every split that leaves both sides
/// non-empty, and so for the one the search selects, the weighted Gini
/// impurity of the sides is at most the Gini impurity of the rows split.
pub proof fn lemma_split_never_raises_impurity(rows: Seq<Seq<i64>>, labels: Seq<i64>, idx: Seq<usize>, m: usize, f: usize, t: i64)
    requires
        admissible(rows, idx, m, f, t),
    ensures
        frac_le(
            cost(rows, labels, idx, f, t),
            (gini_num(labels_at(labels, idx)), gini_den(labels_at(labels, idx))),
        ),
{
    let s = labels_at(labels, idx);
    let lo = labels_at(labels, side(rows, idx, f, t, true));
    let hi = labels_at(labels, side(rows, idx, f, t, false));
    lemma_side_partition(rows, idx, f, t);
    lemma_cross_sides(rows, labels, idx, f, t, s);
    lemma_cross_sides(rows, labels, idx, f, t, lo);
    lemma_cross_sides(rows, labels, idx, f, t, hi);
    lemma_cross_symmetric(lo, s);
    lemma_cross_symmetric(hi, s);
    lemma_cross_symmetric(lo, hi);
    let l = lo.len() as int;
    let r = hi.len() as int;
    let n = s.len() as int;
    let pl = cross(lo, lo) as int;
    let pr = cross(hi, hi) as int;
    let x = cross(lo, hi) as int;
    let p = cross(s, s) as int;
    assert(p == pl + pr + 2 * x);
    assert(n == l + r);
    lemma_cross_quadratic(lo, hi, l, r);
    let q = r * r * pl + l * l * pr - 2 * l * r * x;
    let bb = (n * n - p) * l * r - ((l * l - pl) * r + (r * r - pr) * l) * n;
    assert((n * n - p) * (n * l * r) - ((l * l - pl) * r + (r * r - pr) * l) * (n * n) == n * bb)
        by (nonlinear_arith)
        requires
            bb == (n * n - p) * l * r - ((l * l - pl) * r + (r * r - pr) * l) * n,
    ;
    assert((n * n - p) * l * r == n * n * l * r - p * l * r) by (nonlinear_arith);
    assert(((l * l - pl) * r + (r * r - pr) * l) * n == (l * r * (l + r)) * n - (pl * r + pr * l) * n)
        by (nonlinear_arith);
    assert((l * r * (l + r)) * n == n * n * l * r) by (nonlinear_arith)
        requires
            n == l + r,
    ;
    assert((pl * r + pr * l) * n == pl * r * l + pl * r * r + pr * l * l + pr * l * r) by (nonlinear_arith)
        requires
            n == l + r,
    ;
    assert(p * l * r == pl * l * r + pr * l * r + 2 * x * l * r) by (nonlinear_arith)
        requires
            p == pl + pr + 2 * x,
    ;
    assert(pl * r * l == pl * l * r && pl * r * r == r * r * pl && pr * l * l == l * l * pr
        && 2 * x * l * r == 2 * l * r * x) by (nonlinear_arith);
    assert(bb == q);
    assert(n * q >= 0) by (nonlinear_arith)
        requires
            n >= 0,
            q >= 0,
    ;
}

} // verus!
