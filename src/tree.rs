//! The tree: its nodes, how it is grown from a table, and how it predicts.
use vstd::prelude::*;
use crate::impurity::{gini, gini_num, plurality, plurality_of, MAX_ROWS};
use crate::split::{
    admissible, best_split, best_split_of, gather, idx_ok, is_best_split, labels_at, partition,
    side, table_ok, view_rows, lemma_side_idx_ok,
};

verus! {

/// A node of a decision tree: a leaf with its prediction, or a decision on
/// one feature that sends a row left when its value is `<= threshold` and
/// right otherwise.
#[derive(Debug)]
pub enum TreeNode {
    Leaf { value: i64 },
    Decision { feature: usize, threshold: i64, left: Box<TreeNode>, right: Box<TreeNode> },
}

/// Why a table was refused.
#[derive(Debug, Clone, Copy, PartialEq, Eq, Structural)]
pub enum TreeError {
    /// Rows and labels differ in number, rows differ in length, or rows to
    /// predict do not have the training column count.
    ShapeMismatch,
    /// There are no rows, or no features.
    EmptyData,
    /// The tree has not been fitted.
    NotTrained,
    /// The training table has more than `MAX_ROWS` rows.
    TooManyRows,
}

/// The value the tree rooted at `node` predicts for `row`.
pub open spec fn eval(node: TreeNode, row: Seq<i64>) -> i64
    decreases node,
{
    match node {
        TreeNode::Leaf { value } => value,
        TreeNode::Decision { feature, threshold, left, right } => {
            if row[feature as int] <= threshold {
                eval(*left, row)
            } else {
                eval(*right, row)
            }
        },
    }
}

/// Every decision of the tree reads a feature below `m`.
pub open spec fn features_below(node: TreeNode, m: nat) -> bool
    decreases node,
{
    match node {
        TreeNode::Leaf { .. } => true,
        TreeNode::Decision { feature, left, right, .. } => {
            feature < m && features_below(*left, m) && features_below(*right, m)
        },
    }
}

/// The number of edges on the longest root-to-leaf path.
pub open spec fn height(node: TreeNode) -> nat
    decreases node,
{
    match node {
        TreeNode::Leaf { .. } => 0,
        TreeNode::Decision { left, right, .. } => {
            let l = height(*left);
            let r = height(*right);
            1 + if l >= r { l } else { r }
        },
    }
}

/// The subtree grown at depth `depth` from the rows `idx`: a leaf holding
/// the plurality label when the depth bound is reached, at most one row is
/// left, the labels are pure or no split leaves both sides non-empty;
/// otherwise a decision on the best split with a subtree for each side.
pub open spec fn grow(rows: Seq<Seq<i64>>, labels: Seq<i64>, m: usize, idx: Seq<usize>, depth: nat, max_depth: nat) -> TreeNode
    decreases max_depth - depth,
{
    let here = labels_at(labels, idx);
    if depth >= max_depth || idx.len() <= 1 || gini_num(here) == 0 {
        TreeNode::Leaf { value: plurality(here) }
    } else {
        match best_split_of(rows, labels, idx, m) {
            None => TreeNode::Leaf { value: plurality(here) },
            Some(p) => TreeNode::Decision {
                feature: p.0,
                threshold: p.1,
                left: Box::new(grow(rows, labels, m, side(rows, idx, p.0, p.1, true), depth + 1, max_depth)),
                right: Box::new(grow(rows, labels, m, side(rows, idx, p.0, p.1, false), depth + 1, max_depth)),
            },
        }
    }
}

/// The indices of all `n` rows, in order.
pub open spec fn all_rows(n: nat) -> Seq<usize> {
    Seq::new(n, |i: int| i as usize)
}

/// A table fit for training: one label per row, at least one row and at
/// most `MAX_ROWS`, at least one feature, and every row as long as the first.
pub open spec fn trainable(x: Seq<Seq<i64>>, y: Seq<i64>) -> bool {
    &&& x.len() == y.len()
    &&& 0 < x.len() <= MAX_ROWS
    &&& x[0].len() > 0
    &&& forall|i: int| 0 <= i < x.len() ==> (#[trigger] x[i]).len() == x[0].len()
}

/// The tree that training on rows `x` with labels `y` grows.
pub open spec fn fit_tree(x: Seq<Seq<i64>>, y: Seq<i64>, max_depth: nat) -> TreeNode {
    grow(x, y, x[0].len() as usize, all_rows(x.len()), 0, max_depth)
}

proof fn lemma_route_ok(rows: Seq<Seq<i64>>, labels: Seq<i64>, idx: Seq<usize>, m: usize, f: usize)
    requires
        table_ok(rows, labels, m),
        idx_ok(idx, rows.len() as int),
        f < m,
    ensures
        forall|k: int| 0 <= k < idx.len() ==> (#[trigger] idx[k]) < rows.len() && f < rows[idx[k] as int].len(),
{
    assert forall|k: int| 0 <= k < idx.len() implies (#[trigger] idx[k]) < rows.len() && f < rows[idx[k] as int].len() by {
        assert(rows[idx[k] as int].len() == m);
    }
}

/// Grows the subtree for the rows `idx` at depth `depth`.
fn build(rows: &Vec<Vec<i64>>, labels: &Vec<i64>, m: usize, idx: Vec<usize>, depth: usize, max_depth: usize) -> (r: TreeNode)
    requires
        table_ok(view_rows(rows@), labels@, m),
        idx_ok(idx@, rows.len() as int),
        0 < idx.len() <= MAX_ROWS,
    ensures
        r == grow(view_rows(rows@), labels@, m, idx@, depth as nat, max_depth as nat),
    decreases max_depth - depth,
{
    let ghost tab = view_rows(rows@);
    let here = gather(labels, &idx);
    if depth >= max_depth || idx.len() <= 1 {
        return TreeNode::Leaf { value: plurality_of(&here) };
    }
    let (g, _) = gini(&here);
    if g == 0 {
        return TreeNode::Leaf { value: plurality_of(&here) };
    }
    match best_split(rows, labels, &idx, m) {
        None => TreeNode::Leaf { value: plurality_of(&here) },
        Some((f, t)) => {
            proof {
                assert(admissible(tab, idx@, m, f, t));
                lemma_route_ok(tab, labels@, idx@, m, f);
                assert forall|k: int| 0 <= k < idx.len() implies (#[trigger] idx@[k]) < rows.len() && f < rows@[idx@[k] as int].len() by {
                    assert(tab[idx@[k] as int] == rows@[idx@[k] as int]@);
                }
                lemma_side_idx_ok(tab, idx@, f, t, true, rows.len() as int);
                lemma_side_idx_ok(tab, idx@, f, t, false, rows.len() as int);
            }
            let (lo, hi) = partition(rows, &idx, f, t);
            let left = build(rows, labels, m, lo, depth + 1, max_depth);
            let right = build(rows, labels, m, hi, depth + 1, max_depth);
            TreeNode::Decision { feature: f, threshold: t, left: Box::new(left), right: Box::new(right) }
        },
    }
}

/// The value the tree rooted at `node` predicts for `row`.
fn predict_row(node: &TreeNode, row: &Vec<i64>) -> (r: i64)
    requires
        features_below(*node, row.len() as nat),
    ensures
        r == eval(*node, row@),
    decreases node,
{
    match node {
        TreeNode::Leaf { value } => *value,
        TreeNode::Decision { feature, threshold, left, right } => {
            if row[*feature] <= *threshold {
                predict_row(left, row)
            } else {
                predict_row(right, row)
            }
        },
    }
}


/// Every decision of a grown subtree reads a feature below `m`.
pub proof fn lemma_grow_features(rows: Seq<Seq<i64>>, labels: Seq<i64>, m: usize, idx: Seq<usize>, depth: nat, max_depth: nat)
    ensures
        features_below(grow(rows, labels, m, idx, depth, max_depth), m as nat),
    decreases max_depth - depth,
{
    let here = labels_at(labels, idx);
    if !(depth >= max_depth || idx.len() <= 1 || gini_num(here) == 0) {
        if let Some(p) = best_split_of(rows, labels, idx, m) {
            assert(is_best_split(rows, labels, idx, m, p.0, p.1));
            lemma_grow_features(rows, labels, m, side(rows, idx, p.0, p.1, true), depth + 1, max_depth);
            lemma_grow_features(rows, labels, m, side(rows, idx, p.0, p.1, false), depth + 1, max_depth);
        }
    }
}

/// A subtree grown at depth `depth` has no root-to-leaf path longer than
/// `max_depth - depth` edges.
pub proof fn lemma_grow_height(rows: Seq<Seq<i64>>, labels: Seq<i64>, m: usize, idx: Seq<usize>, depth: nat, max_depth: nat)
    requires
        depth <= max_depth,
    ensures
        height(grow(rows, labels, m, idx, depth, max_depth)) <= max_depth - depth,
    decreases max_depth - depth,
{
    let here = labels_at(labels, idx);
    if !(depth >= max_depth || idx.len() <= 1 || gini_num(here) == 0) {
        if let Some(p) = best_split_of(rows, labels, idx, m) {
            lemma_grow_height(rows, labels, m, side(rows, idx, p.0, p.1, true), depth + 1, max_depth);
            lemma_grow_height(rows, labels, m, side(rows, idx, p.0, p.1, false), depth + 1, max_depth);
        }
    }
}

/// No root-to-leaf path of a fitted tree has more than `max_depth` edges.
pub proof fn lemma_fit_depth_bound(x: Seq<Seq<i64>>, y: Seq<i64>, max_depth: nat)
    ensures
        height(fit_tree(x, y, max_depth)) <= max_depth,
{
    lemma_grow_height(x, y, x[0].len() as usize, all_rows(x.len()), 0, max_depth);
}

/// Rows that all carry one label give a single leaf holding that label,
/// whatever the depth bound.
pub proof fn lemma_uniform_labels_give_leaf(x: Seq<Seq<i64>>, y: Seq<i64>, max_depth: nat)
    requires
        trainable(x, y),
        forall|i: int| 0 <= i < y.len() ==> #[trigger] y[i] == y[0],
    ensures
        fit_tree(x, y, max_depth) == (TreeNode::Leaf { value: y[0] }),
{
    let here = labels_at(y, all_rows(x.len()));
    assert(here =~= y);
    crate::impurity::lemma_constant_is_pure(y, y[0]);
    crate::impurity::lemma_plurality_constant(y, y[0]);
}

/// With a depth bound of zero the tree is one leaf holding the plurality
/// label of all rows.
pub proof fn lemma_zero_depth_is_plurality(x: Seq<Seq<i64>>, y: Seq<i64>)
    requires
        trainable(x, y),
    ensures
        fit_tree(x, y, 0) == (TreeNode::Leaf { value: plurality(y) }),
{
    assert(labels_at(y, all_rows(x.len())) =~= y);
}

/// A decision tree: its root once fitted, the depth bound it was made with,
/// and the number of features it was trained on.
pub struct DecisionTree {
    root: Option<TreeNode>,
    max_depth: usize,
    n_features: usize,
}

impl DecisionTree {
    /// The root, or `None` before the first successful `fit`.
    pub closed spec fn spec_root(&self) -> Option<TreeNode> {
        self.root
    }

    pub closed spec fn spec_max_depth(&self) -> nat {
        self.max_depth as nat
    }

    /// The column count of the table the tree was trained on.
    pub closed spec fn spec_n_features(&self) -> nat {
        self.n_features as nat
    }

    /// Every decision of the root reads one of the trained features.
    pub closed spec fn wf(&self) -> bool {
        self.root matches Some(n) ==> features_below(n, self.n_features as nat)
    }

    /// An untrained tree with depth bound `max_depth`.
    pub fn new(max_depth: usize) -> (r: Self)
        ensures
            r.wf(),
            r.spec_root() is None,
            r.spec_max_depth() == max_depth,
    {
        DecisionTree { root: None, max_depth, n_features: 0 }
    }

    /// The depth bound the tree was made with.
    pub fn max_depth(&self) -> (r: usize)
        ensures
            r == self.spec_max_depth(),
    {
        self.max_depth
    }

    /// The root of the fitted tree.
    pub fn root(&self) -> (r: Option<&TreeNode>)
        ensures
            r matches Some(n) ==> self.spec_root() == Some(*n),
            r is None <==> self.spec_root() is None,
    {
        match &self.root {
            Some(n) => Some(n),
            None => None,
        }
    }

    /// Trains on rows `x` with labels `y`, replacing any earlier tree. Fails
    /// without change when the numbers of rows and labels differ or the rows
    /// differ in length (`ShapeMismatch`), when there are no rows or no
    /// features (`EmptyData`), or when a well-shaped table has more than
    /// `MAX_ROWS` rows (`TooManyRows`).
    pub fn fit(&mut self, x: &Vec<Vec<i64>>, y: &Vec<i64>) -> (r: Result<(), TreeError>)
        ensures
            r == Err::<(), TreeError>(TreeError::ShapeMismatch) <==> (x.len() != y.len() || (x.len() > 0
                && x[0].len() > 0 && exists|i: int| 0 <= i < x.len() && #[trigger] x[i].len() != x[0].len())),
            r == Err::<(), TreeError>(TreeError::EmptyData) <==> (x.len() == y.len() && (x.len() == 0 || x[0].len() == 0)),
            r == Err::<(), TreeError>(TreeError::TooManyRows) <==> (x.len() == y.len() && x.len() > MAX_ROWS
                && x[0].len() > 0 && forall|i: int| 0 <= i < x.len() ==> #[trigger] x[i].len() == x[0].len()),
            r is Ok <==> trainable(view_rows(x@), y@),
            r is Ok ==> final(self).spec_root() == Some(fit_tree(view_rows(x@), y@, old(self).spec_max_depth()))
                && final(self).spec_n_features() == x[0].len()
                && final(self).spec_max_depth() == old(self).spec_max_depth(),
            r is Ok ==> height(final(self).spec_root().unwrap()) <= old(self).spec_max_depth(),
            r is Err ==> *final(self) == *old(self),
            old(self).wf() ==> final(self).wf(),
    {
        let ghost tab = view_rows(x@);
        if x.len() != y.len() {
            return Err(TreeError::ShapeMismatch);
        }
        if x.len() == 0 {
            return Err(TreeError::EmptyData);
        }
        let m = x[0].len();
        if m == 0 {
            return Err(TreeError::EmptyData);
        }
        let mut i: usize = 0;
        while i < x.len()
            invariant
                i <= x.len(),
                x.len() > 0,
                x.len() == y.len(),
                m == x[0].len(),
                m > 0,
                tab == view_rows(x@),
                forall|j: int| 0 <= j < i ==> (#[trigger] x[j]).len() == m,
            decreases x.len() - i,
        {
            if x[i].len() != m {
                assert(tab[i as int] == x[i as int]@);
                assert(x[i as int].len() != x[0].len());
                return Err(TreeError::ShapeMismatch);
            }
            i = i + 1;
        }
        if x.len() > MAX_ROWS {
            return Err(TreeError::TooManyRows);
        }
        let mut idx: Vec<usize> = Vec::new();
        let mut k: usize = 0;
        while k < x.len()
            invariant
                k <= x.len(),
                idx@ == all_rows(k as nat),
            decreases x.len() - k,
        {
            idx.push(k);
            k = k + 1;
            assert(idx@ =~= all_rows(k as nat));
        }
        assert(trainable(tab, y@)) by {
            assert forall|j: int| 0 <= j < tab.len() implies (#[trigger] tab[j]).len() == tab[0].len() by {
                assert(x[j].len() == m);
            }
        }
        assert(table_ok(tab, y@, m));
        let root = build(x, y, m, idx, 0, self.max_depth);
        proof {
            lemma_grow_features(tab, y@, m, all_rows(x.len() as nat), 0, self.max_depth as nat);
            lemma_fit_depth_bound(tab, y@, self.max_depth as nat);
        }
        self.root = Some(root);
        self.n_features = m;
        Ok(())
    }

    /// Predicts each row of `x` by walking the fitted tree. Fails with
    /// `NotTrained` before the first successful `fit`, and with
    /// `ShapeMismatch` when a row's length is not the trained column count.
    pub fn predict(&self, x: &Vec<Vec<i64>>) -> (r: Result<Vec<i64>, TreeError>)
        requires
            self.wf(),
        ensures
            r == Err::<Vec<i64>, TreeError>(TreeError::NotTrained) <==> self.spec_root() is None,
            r == Err::<Vec<i64>, TreeError>(TreeError::ShapeMismatch) <==> (self.spec_root() is Some
                && exists|i: int| 0 <= i < x.len() && #[trigger] x[i].len() != self.spec_n_features()),
            r is Ok <==> (self.spec_root() is Some
                && forall|i: int| 0 <= i < x.len() ==> #[trigger] x[i].len() == self.spec_n_features()),
            r matches Ok(p) ==> p@ == Seq::new(x.len() as nat, |i: int| eval(self.spec_root().unwrap(), x[i]@)),
    {
        let root = match &self.root {
            Some(n) => n,
            None => {
                return Err(TreeError::NotTrained);
            },
        };
        let mut i: usize = 0;
        while i < x.len()
            invariant
                i <= x.len(),
                self.root == Some(*root),
                forall|j: int| 0 <= j < i ==> (#[trigger] x[j]).len() == self.n_features,
            decreases x.len() - i,
        {
            if x[i].len() != self.n_features {
                assert(x[i as int].len() != self.spec_n_features());
                return Err(TreeError::ShapeMismatch);
            }
            i = i + 1;
        }
        let mut out: Vec<i64> = Vec::new();
        let mut k: usize = 0;
        while k < x.len()
            invariant
                k <= x.len(),
                self.wf(),
                self.root == Some(*root),
                forall|j: int| 0 <= j < x.len() ==> (#[trigger] x[j]).len() == self.n_features,
                out@ == Seq::new(k as nat, |j: int| eval(*root, x[j]@)),
            decreases x.len() - k,
        {
            let v = predict_row(root, &x[k]);
            out.push(v);
            k = k + 1;
            assert(out@ =~= Seq::new(k as nat, |j: int| eval(*root, x[j]@)));
        }
        Ok(out)
    }
}

/// Two trees with the same depth bound fitted on the same table predict
/// the same values for every row.
pub proof fn lemma_fit_is_deterministic(a: DecisionTree, b: DecisionTree, x: Seq<Seq<i64>>, y: Seq<i64>, q: Seq<i64>)
    requires
        a.spec_max_depth() == b.spec_max_depth(),
        a.spec_root() == Some(fit_tree(x, y, a.spec_max_depth())),
        b.spec_root() == Some(fit_tree(x, y, b.spec_max_depth())),
    ensures
        eval(a.spec_root().unwrap(), q) == eval(b.spec_root().unwrap(), q),
{
}

} // verus!
