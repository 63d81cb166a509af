use vstd::prelude::*;

use super::huffman::{
    combine, forest_total, huffman_reduce, huffman_tree, leaves, lemma_forest_total_nonneg,
    lemma_forest_total_remove, lemma_merge_step_len, lemma_min_index_bounds, merge_step,
    min_index, min_index_below, sorted_symbols, taken_pair, HuffmanNode,
};
use super::huffman::leaf_codes;
use super::huffman_tree::{lemma_leaves, lemma_merge_preserves, lemma_reduce, well_formed};

verus! {

/// A binary tree whose leaves carry weights: the shape of a prefix code, with the
/// frequency of the symbol at each leaf.
pub enum WeightTree {
    Leaf(nat),
    Join(Box<WeightTree>, Box<WeightTree>),
}

/// The total weight of the leaves.
pub open spec fn weight(t: WeightTree) -> nat
    decreases t,
{
    match t {
        WeightTree::Leaf(w) => w,
        WeightTree::Join(l, r) => weight(*l) + weight(*r),
    }
}

/// The weighted path length: the weight of each leaf times its depth, summed; the number
/// of bits that the code of the tree spends on the symbols.
pub open spec fn cost(t: WeightTree) -> nat
    decreases t,
{
    match t {
        WeightTree::Leaf(_) => 0,
        WeightTree::Join(l, r) => cost(*l) + cost(*r) + weight(*l) + weight(*r),
    }
}

/// The leaf weights, left to right.
pub open spec fn leaf_weights(t: WeightTree) -> Seq<nat>
    decreases t,
{
    match t {
        WeightTree::Leaf(w) => seq![w],
        WeightTree::Join(l, r) => leaf_weights(*l) + leaf_weights(*r),
    }
}

/// The depths of the leaves, left to right.
pub open spec fn depths(t: WeightTree) -> Seq<nat>
    decreases t,
{
    match t {
        WeightTree::Leaf(_) => seq![0nat],
        WeightTree::Join(l, r) => (depths(*l) + depths(*r)).map_values(|d: nat| d + 1),
    }
}

/// The depth of the deepest leaf.
pub open spec fn height(t: WeightTree) -> nat
    decreases t,
{
    match t {
        WeightTree::Leaf(_) => 0,
        WeightTree::Join(l, r) => 1 + if height(*l) >= height(*r) {
            height(*l)
        } else {
            height(*r)
        },
    }
}

/// The tree of the same shape with the leaf weights `ws`, left to right.
pub open spec fn relabel(t: WeightTree, ws: Seq<nat>) -> WeightTree
    decreases t,
{
    match t {
        WeightTree::Leaf(_) => WeightTree::Leaf(ws[0]),
        WeightTree::Join(l, r) => {
            let n = leaf_weights(*l).len() as int;
            WeightTree::Join(Box::new(relabel(*l, ws.take(n))), Box::new(relabel(*r, ws.skip(n))))
        },
    }
}

/// The position of the left one of two sibling leaves at the greatest depth.
pub open spec fn deepest(t: WeightTree) -> int
    decreases t,
{
    match t {
        WeightTree::Leaf(_) => 0,
        WeightTree::Join(l, r) => if *l is Leaf && *r is Leaf {
            0
        } else if height(*l) >= height(*r) {
            deepest(*l)
        } else {
            leaf_weights(*l).len() + deepest(*r)
        },
    }
}

/// The tree in which the two sibling leaves at `deepest` are merged into one leaf.
pub open spec fn contract(t: WeightTree) -> WeightTree
    decreases t,
{
    match t {
        WeightTree::Leaf(w) => WeightTree::Leaf(w),
        WeightTree::Join(l, r) => if *l is Leaf && *r is Leaf {
            WeightTree::Leaf(weight(*l) + weight(*r))
        } else if height(*l) >= height(*r) {
            WeightTree::Join(Box::new(contract(*l)), r)
        } else {
            WeightTree::Join(l, Box::new(contract(*r)))
        },
    }
}

/// The sum of the products of weights and depths.
pub open spec fn dot(w: Seq<nat>, d: Seq<nat>) -> nat
    decreases w.len(),
{
    if w.len() == 0 {
        0
    } else {
        dot(w.drop_last(), d.drop_last()) + w.last() * d.last()
    }
}

/// The sum of a sequence of weights.
pub open spec fn total(w: Seq<nat>) -> nat
    decreases w.len(),
{
    if w.len() == 0 {
        0
    } else {
        total(w.drop_last()) + w.last()
    }
}

proof fn lemma_lengths(t: WeightTree)
    ensures
        leaf_weights(t).len() == depths(t).len(),
        leaf_weights(t).len() >= 1,
    decreases t,
{
    if let WeightTree::Join(l, r) = t {
        lemma_lengths(*l);
        lemma_lengths(*r);
    }
}

proof fn lemma_total_concat(a: Seq<nat>, b: Seq<nat>)
    ensures
        total(a + b) == total(a) + total(b),
    decreases b.len(),
{
    if b.len() == 0 {
        assert(a + b =~= a);
    } else {
        lemma_total_concat(a, b.drop_last());
        assert((a + b).drop_last() =~= a + b.drop_last());
    }
}

proof fn lemma_dot_concat(a: Seq<nat>, b: Seq<nat>, c: Seq<nat>, e: Seq<nat>)
    requires
        a.len() == c.len(),
        b.len() == e.len(),
    ensures
        dot(a + b, c + e) == dot(a, c) + dot(b, e),
    decreases b.len(),
{
    if b.len() == 0 {
        assert(a + b =~= a);
        assert(c + e =~= c);
    } else {
        lemma_dot_concat(a, b.drop_last(), c, e.drop_last());
        assert((a + b).drop_last() =~= a + b.drop_last());
        assert((c + e).drop_last() =~= c + e.drop_last());
    }
}

proof fn lemma_dot_deeper(w: Seq<nat>, d: Seq<nat>)
    requires
        w.len() == d.len(),
    ensures
        dot(w, d.map_values(|x: nat| x + 1)) == dot(w, d) + total(w),
    decreases w.len(),
{
    if w.len() > 0 {
        lemma_dot_deeper(w.drop_last(), d.drop_last());
        assert(d.map_values(|x: nat| x + 1).drop_last() =~= d.drop_last().map_values(|x: nat| x + 1));
        assert(w.last() * (d.last() + 1) == w.last() * d.last() + w.last()) by (nonlinear_arith);
    }
}

/// The weighted path length is the sum of each leaf weight times its depth.
pub proof fn lemma_cost_is_dot(t: WeightTree)
    ensures
        cost(t) == dot(leaf_weights(t), depths(t)),
        weight(t) == total(leaf_weights(t)),
    decreases t,
{
    lemma_lengths(t);
    match t {
        WeightTree::Leaf(w) => {
            let ws = leaf_weights(t);
            let ds = depths(t);
            assert(ws.drop_last() =~= Seq::<nat>::empty());
            assert(ds.drop_last() =~= Seq::<nat>::empty());
            assert(ws.last() == w && ds.last() == 0);
            assert(dot(ws, ds) == dot(ws.drop_last(), ds.drop_last()) + w * 0);
            assert(total(ws) == total(ws.drop_last()) + w);
        },
        WeightTree::Join(l, r) => {
            lemma_cost_is_dot(*l);
            lemma_cost_is_dot(*r);
            lemma_lengths(*l);
            lemma_lengths(*r);
            let ws = leaf_weights(*l) + leaf_weights(*r);
            let ds = depths(*l) + depths(*r);
            lemma_dot_deeper(ws, ds);
            lemma_dot_concat(leaf_weights(*l), leaf_weights(*r), depths(*l), depths(*r));
            lemma_total_concat(leaf_weights(*l), leaf_weights(*r));
        },
    }
}

proof fn lemma_depth_bound(t: WeightTree)
    ensures
        forall|i: int| 0 <= i < depths(t).len() ==> #[trigger] depths(t)[i] <= height(t),
    decreases t,
{
    if let WeightTree::Join(l, r) = t {
        lemma_depth_bound(*l);
        lemma_depth_bound(*r);
        let dl = depths(*l);
        let dr = depths(*r);
        assert forall|i: int| 0 <= i < depths(t).len() implies #[trigger] depths(t)[i] <= height(t) by {
            if i < dl.len() {
                assert(depths(t)[i] == dl[i] + 1);
            } else {
                assert(depths(t)[i] == dr[i - dl.len()] + 1);
            }
        }
    }
}

/// In a tree with more than one leaf, the leaves at `deepest` and just after it lie at the
/// greatest depth.
proof fn lemma_deepest(t: WeightTree)
    requires
        t is Join,
    ensures
        0 <= deepest(t),
        deepest(t) + 1 < leaf_weights(t).len(),
        depths(t)[deepest(t)] == height(t),
        depths(t)[deepest(t) + 1] == height(t),
    decreases t,
{
    lemma_lengths(t);
    if let WeightTree::Join(l, r) = t {
        lemma_lengths(*l);
        lemma_lengths(*r);
        let dl = depths(*l);
        let dr = depths(*r);
        if *l is Leaf && *r is Leaf {
        } else if height(*l) >= height(*r) {
            lemma_deepest(*l);
            let k = deepest(*l);
            assert(depths(t)[k] == dl[k] + 1);
            assert(depths(t)[k + 1] == dl[k + 1] + 1);
        } else {
            lemma_deepest(*r);
            let k = deepest(*r);
            let n = dl.len() as int;
            assert(depths(t)[n + k] == dr[k] + 1);
            assert(depths(t)[n + k + 1] == dr[k + 1] + 1);
        }
    }
}

/// Merging the two sibling leaves at `deepest` replaces their weights by their sum and
/// saves their weights in the weighted path length.
proof fn lemma_contract(t: WeightTree)
    requires
        t is Join,
    ensures
        ({
            let k = deepest(t);
            let w = leaf_weights(t);
            &&& leaf_weights(contract(t)) == w.take(k) + seq![w[k] + w[k + 1]] + w.skip(k + 2)
            &&& cost(contract(t)) + w[k] + w[k + 1] == cost(t)
            &&& weight(contract(t)) == weight(t)
        }),
    decreases t,
{
    lemma_lengths(t);
    lemma_deepest(t);
    if let WeightTree::Join(l, r) = t {
        lemma_lengths(*l);
        lemma_lengths(*r);
        let wl = leaf_weights(*l);
        let wr = leaf_weights(*r);
        let w = leaf_weights(t);
        let k = deepest(t);
        if *l is Leaf && *r is Leaf {
            assert(w.take(k) + seq![w[k] + w[k + 1]] + w.skip(k + 2) =~= seq![w[0] + w[1]]);
        } else if height(*l) >= height(*r) {
            lemma_contract(*l);
            lemma_deepest(*l);
            let x = wl[k] + wl[k + 1];
            assert(w[k] == wl[k] && w[k + 1] == wl[k + 1]);
            assert(w.take(k) + seq![x] + w.skip(k + 2) =~= (wl.take(k) + seq![x] + wl.skip(k + 2)) + wr);
        } else {
            lemma_contract(*r);
            lemma_deepest(*r);
            let j = deepest(*r);
            let n = wl.len() as int;
            let x = wr[j] + wr[j + 1];
            assert(w[n + j] == wr[j] && w[n + j + 1] == wr[j + 1]);
            assert(w.take(n + j) + seq![x] + w.skip(n + j + 2) =~= wl + (wr.take(j) + seq![x] + wr.skip(j + 2)));
        }
    }
}

/// Relabelling keeps the shape: the depths, the height and the deepest pair; the leaves
/// carry the new weights.
proof fn lemma_relabel(t: WeightTree, ws: Seq<nat>)
    requires
        ws.len() == leaf_weights(t).len(),
    ensures
        leaf_weights(relabel(t, ws)) == ws,
        depths(relabel(t, ws)) == depths(t),
        height(relabel(t, ws)) == height(t),
        deepest(relabel(t, ws)) == deepest(t),
        relabel(t, ws) is Join <==> t is Join,
    decreases t,
{
    match t {
        WeightTree::Leaf(_) => {
            assert(ws =~= seq![ws[0]]);
        },
        WeightTree::Join(l, r) => {
            lemma_lengths(*l);
            let n = leaf_weights(*l).len() as int;
            lemma_relabel(*l, ws.take(n));
            lemma_relabel(*r, ws.skip(n));
            assert(ws.take(n) + ws.skip(n) =~= ws);
        },
    }
}

proof fn lemma_dot_update(w: Seq<nat>, d: Seq<nat>, p: int, x: nat)
    requires
        w.len() == d.len(),
        0 <= p < w.len(),
    ensures
        dot(w.update(p, x), d) + w[p] * d[p] == dot(w, d) + x * d[p],
    decreases w.len(),
{
    let u = w.update(p, x);
    if p == w.len() - 1 {
        assert(u.drop_last() =~= w.drop_last());
    } else {
        lemma_dot_update(w.drop_last(), d.drop_last(), p, x);
        assert(u.drop_last() =~= w.drop_last().update(p, x));
    }
}

proof fn lemma_update_multiset(w: Seq<nat>, p: int, x: nat)
    requires
        0 <= p < w.len(),
    ensures
        w.update(p, x).to_multiset() == w.to_multiset().remove(w[p]).insert(x),
{
    broadcast use vstd::seq_lib::group_to_multiset_ensures;

    let u = w.update(p, x);
    assert(u.remove(p) =~= w.remove(p));
    assert(u.remove(p).to_multiset() == u.to_multiset().remove(x));
    assert(w.remove(p).to_multiset() == w.to_multiset().remove(w[p]));
    assert(u.contains(x)) by {
        assert(u[p] == x);
    }
    assert(u.to_multiset().count(x) > 0);
    assert(u.to_multiset() =~= u.to_multiset().remove(x).insert(x));
}

/// `w` with the weights at `p` and `q` exchanged.
pub open spec fn swap(w: Seq<nat>, p: int, q: int) -> Seq<nat> {
    w.update(p, w[q]).update(q, w[p])
}

proof fn lemma_swap(w: Seq<nat>, d: Seq<nat>, p: int, q: int)
    requires
        w.len() == d.len(),
        0 <= p < w.len(),
        0 <= q < w.len(),
    ensures
        swap(w, p, q).len() == w.len(),
        swap(w, p, q).to_multiset() == w.to_multiset(),
        swap(w, p, q)[p] == w[q],
        swap(w, p, q)[q] == w[p],
        forall|r: int| 0 <= r < w.len() && r != p && r != q ==> #[trigger] swap(w, p, q)[r] == w[r],
        dot(swap(w, p, q), d) + (w[q] - w[p]) * (d[q] - d[p]) == dot(w, d),
{
    let u = w.update(p, w[q]);
    lemma_dot_update(w, d, p, w[q]);
    lemma_update_multiset(w, p, w[q]);
    if p == q {
        assert(swap(w, p, q) =~= w);
    } else {
        assert(u[q] == w[q]);
        lemma_dot_update(u, d, q, w[p]);
        lemma_update_multiset(u, q, w[p]);
        assert(w.to_multiset().count(w[p]) > 0) by {
            broadcast use vstd::seq_lib::group_to_multiset_ensures;

            assert(w.contains(w[p]));
        }
        assert(u.to_multiset().remove(w[q]).insert(w[p]) =~= w.to_multiset());
        assert(w[p] * d[p] + w[q] * d[q] == w[q] * d[p] + w[p] * d[q] + (w[q] - w[p]) * (d[q]
            - d[p])) by (nonlinear_arith);
    }
}

/// Moving the two lightest weights to the sibling leaves at the greatest depth does not
/// lengthen the weighted path.
proof fn lemma_exchange(w: Seq<nat>, d: Seq<nat>, k: int, i: int, j: int) -> (w2: Seq<nat>)
    requires
        w.len() == d.len(),
        0 <= k,
        k + 1 < w.len(),
        forall|p: int| 0 <= p < d.len() ==> #[trigger] d[p] <= d[k],
        d[k + 1] == d[k],
        0 <= i < w.len(),
        0 <= j < w.len(),
        i != j,
        forall|p: int| 0 <= p < w.len() ==> w[i] <= #[trigger] w[p],
        forall|p: int| 0 <= p < w.len() && p != i ==> w[j] <= #[trigger] w[p],
    ensures
        w2.len() == w.len(),
        w2.to_multiset() == w.to_multiset(),
        w2[k] == w[i],
        w2[k + 1] == w[j],
        dot(w2, d) <= dot(w, d),
{
    let w1 = swap(w, i, k);
    lemma_swap(w, d, i, k);
    let j1 = if j == k {
        i
    } else {
        j
    };
    assert(w1[j1] == w[j]);
    assert(j1 != k);
    let w2 = swap(w1, j1, k + 1);
    lemma_swap(w1, d, j1, k + 1);
    assert(w[k] - w[i] >= 0 && d[k] - d[i] >= 0);
    assert((w[k] - w[i]) * (d[k] - d[i]) >= 0) by (nonlinear_arith)
        requires
            w[k] - w[i] >= 0,
            d[k] - d[i] >= 0,
    ;
    assert(w1[k + 1] >= w[j]) by {
        if k + 1 == i {
            assert(w1[k + 1] == w[k]);
        } else {
            assert(w1[k + 1] == w[k + 1]);
        }
    }
    assert(d[k + 1] - d[j1] >= 0);
    assert((w1[k + 1] - w1[j1]) * (d[k + 1] - d[j1]) >= 0) by (nonlinear_arith)
        requires
            w1[k + 1] - w1[j1] >= 0,
            d[k + 1] - d[j1] >= 0,
    ;
    w2
}

proof fn lemma_splice_multiset(s: Seq<nat>, k: int, x: nat)
    requires
        0 <= k,
        k + 1 < s.len(),
    ensures
        (s.take(k) + seq![x] + s.skip(k + 2)).to_multiset() == s.to_multiset().remove(s[k]).remove(
            s[k + 1],
        ).insert(x),
{
    broadcast use vstd::seq_lib::group_to_multiset_ensures;

    let s1 = s.remove(k + 1);
    assert(s1.update(k, x) =~= s.take(k) + seq![x] + s.skip(k + 2));
    lemma_update_multiset(s1, k, x);
    assert(s1[k] == s[k]);
    assert(s1.to_multiset() == s.to_multiset().remove(s[k + 1]));
    assert(s.to_multiset().remove(s[k + 1]).remove(s[k]) =~= s.to_multiset().remove(s[k]).remove(
        s[k + 1],
    ));
}

/// In a tree with more than one leaf, where `a` is a lightest leaf weight and `b` a lightest
/// of the others, there is a tree with one leaf fewer, `a` and `b` replaced by one leaf of
/// weight `a + b`, whose weighted path length is shorter by at least `a + b`.
proof fn lemma_merge_lightest(t: WeightTree, a: nat, b: nat) -> (t2: WeightTree)
    requires
        t is Join,
        leaf_weights(t).to_multiset().count(a) > 0,
        leaf_weights(t).to_multiset().remove(a).count(b) > 0,
        forall|x: nat| #[trigger] leaf_weights(t).to_multiset().count(x) > 0 ==> a <= x,
        forall|x: nat| #[trigger] leaf_weights(t).to_multiset().remove(a).count(x) > 0 ==> b <= x,
    ensures
        leaf_weights(t2).to_multiset() == leaf_weights(t).to_multiset().remove(a).remove(b).insert(
            a + b,
        ),
        cost(t2) + a + b <= cost(t),
        leaf_weights(t2).len() + 1 == leaf_weights(t).len(),
{
    broadcast use vstd::seq_lib::group_to_multiset_ensures;

    let w = leaf_weights(t);
    let d = depths(t);
    let k = deepest(t);
    lemma_lengths(t);
    lemma_deepest(t);
    lemma_depth_bound(t);
    assert(w.contains(a));
    let i = choose|i: int| 0 <= i < w.len() && w[i] == a;
    let wi = w.remove(i);
    assert(wi.to_multiset() == w.to_multiset().remove(a));
    assert(wi.contains(b));
    let j0 = choose|j0: int| 0 <= j0 < wi.len() && wi[j0] == b;
    let j = if j0 < i {
        j0
    } else {
        j0 + 1
    };
    assert(w[j] == b);
    assert forall|p: int| 0 <= p < w.len() implies a <= #[trigger] w[p] by {
        assert(w.contains(w[p]));
        assert(w.to_multiset().count(w[p]) > 0);
    }
    assert forall|p: int| 0 <= p < w.len() && p != i implies b <= #[trigger] w[p] by {
        let q = if p < i {
            p
        } else {
            p - 1
        };
        assert(wi[q] == w[p]);
        assert(wi.contains(w[p]));
        assert(wi.to_multiset().count(w[p]) > 0);
    }
    assert forall|p: int| 0 <= p < d.len() implies #[trigger] d[p] <= d[k] by {}
    let w2 = lemma_exchange(w, d, k, i, j);
    let t1 = relabel(t, w2);
    lemma_relabel(t, w2);
    lemma_cost_is_dot(t);
    lemma_cost_is_dot(t1);
    let t2 = contract(t1);
    lemma_contract(t1);
    lemma_lengths(t1);
    lemma_splice_multiset(w2, k, a + b);
    assert(w2.take(k) + seq![a + b] + w2.skip(k + 2) =~= leaf_weights(t2));
    assert(leaf_weights(t2).len() + 1 == w.len());
    t2
}

/// The weight tree of a Huffman node: its leaves carry their frequencies.
pub open spec fn weight_tree(n: HuffmanNode) -> WeightTree
    decreases n,
{
    match n.symbol {
        Some(_) => WeightTree::Leaf(n.frequency as nat),
        None => match n.left {
            Some(l) => match n.right {
                Some(r) => WeightTree::Join(Box::new(weight_tree(*l)), Box::new(weight_tree(*r))),
                None => WeightTree::Leaf(n.frequency as nat),
            },
            None => WeightTree::Leaf(n.frequency as nat),
        },
    }
}

/// The frequencies of a frequency table, in symbol order.
pub open spec fn table_weights(m: Map<u8, u64>) -> Seq<nat> {
    sorted_symbols(m).map_values(|s: u8| m[s] as nat)
}

/// The frequencies at the roots of a forest.
spec fn root_weights(f: Seq<HuffmanNode>) -> Seq<nat> {
    f.map_values(|n: HuffmanNode| n.frequency as nat)
}

/// The summed weighted path lengths of the trees of a forest.
spec fn forest_cost(f: Seq<HuffmanNode>) -> nat
    decreases f.len(),
{
    if f.len() == 0 {
        0
    } else {
        forest_cost(f.drop_last()) + cost(weight_tree(f.last()))
    }
}

/// Every tree of the forest records at its root the total frequency of its leaves.
spec fn forest_consistent(f: Seq<HuffmanNode>) -> bool {
    forall|i: int| 0 <= i < f.len() ==> weight(weight_tree(#[trigger] f[i])) == f[i].frequency
}

proof fn lemma_forest_cost_remove(f: Seq<HuffmanNode>, i: int)
    requires
        0 <= i < f.len(),
    ensures
        forest_cost(f) == forest_cost(f.remove(i)) + cost(weight_tree(f[i])),
    decreases f.len(),
{
    if i < f.len() - 1 {
        lemma_forest_cost_remove(f.drop_last(), i);
        assert(f.remove(i).drop_last() =~= f.drop_last().remove(i));
        assert(f.remove(i).last() == f.last());
    } else {
        assert(f.remove(i) =~= f.drop_last());
    }
}

proof fn lemma_min_index_below_min(f: Seq<HuffmanNode>, k: int)
    requires
        1 <= k <= f.len(),
    ensures
        forall|p: int| 0 <= p < k ==> f[min_index_below(f, k)].frequency <= #[trigger] f[p].frequency,
    decreases k,
{
    lemma_min_index_bounds(f, k);
    if k > 1 {
        lemma_min_index_below_min(f, k - 1);
        lemma_min_index_bounds(f, k - 1);
    }
}

/// The node taken first has the lowest frequency of the forest.
proof fn lemma_min_index_min(f: Seq<HuffmanNode>)
    requires
        f.len() >= 1,
    ensures
        0 <= min_index(f) < f.len(),
        forall|p: int| 0 <= p < f.len() ==> f[min_index(f)].frequency <= #[trigger] f[p].frequency,
{
    lemma_min_index_below_min(f, f.len() as int);
    lemma_min_index_bounds(f, f.len() as int);
}

proof fn lemma_root_weights_min(f: Seq<HuffmanNode>)
    requires
        f.len() >= 1,
    ensures
        root_weights(f).to_multiset().count(f[min_index(f)].frequency as nat) > 0,
        forall|x: nat| #[trigger] root_weights(f).to_multiset().count(x) > 0 ==> f[min_index(
            f,
        )].frequency <= x,
{
    broadcast use vstd::seq_lib::group_to_multiset_ensures;

    lemma_min_index_min(f);
    let rw = root_weights(f);
    assert(rw[min_index(f)] == f[min_index(f)].frequency as nat);
    assert(rw.contains(f[min_index(f)].frequency as nat));
    assert forall|x: nat| #[trigger] rw.to_multiset().count(x) > 0 implies f[min_index(f)].frequency
        <= x by {
        assert(rw.contains(x));
        let p = choose|p: int| 0 <= p < rw.len() && rw[p] == x;
        assert(f[p].frequency == x);
    }
}

/// Combining a forest costs, beyond the forest's own trees, no more than the weighted path
/// length of any tree whose leaves carry the forest's root frequencies.
proof fn lemma_reduce_optimal(f: Seq<HuffmanNode>, t: WeightTree)
    requires
        f.len() >= 1,
        forest_total(f) <= u64::MAX,
        forest_consistent(f),
        leaf_weights(t).to_multiset() == root_weights(f).to_multiset(),
    ensures
        huffman_reduce(f) is Some,
        cost(weight_tree(huffman_reduce(f).unwrap())) <= forest_cost(f) + cost(t),
    decreases f.len(),
{
    broadcast use vstd::seq_lib::group_to_multiset_ensures;

    if f.len() == 1 {
        assert(f.drop_last() =~= Seq::<HuffmanNode>::empty());
        assert(forest_cost(f) == cost(weight_tree(f[0])));
    } else {
        lemma_merge_step_len(f);
        lemma_merge_preserves(f);
        let i = min_index(f);
        let f1 = f.remove(i);
        let j = min_index(f1);
        let f2 = f1.remove(j);
        let a = f[i];
        let b = f1[j];
        assert(taken_pair(f) == (a, b));
        let c = combine(a, b);
        assert(merge_step(f) == f2.push(c));
        // the two lightest frequencies, and the frequency of their parent
        lemma_root_weights_min(f);
        lemma_root_weights_min(f1);
        assert(root_weights(f1) =~= root_weights(f).remove(i));
        assert(root_weights(f1).to_multiset() == root_weights(f).to_multiset().remove(
            a.frequency as nat,
        ));
        lemma_forest_total_remove(f, i);
        lemma_forest_total_remove(f1, j);
        lemma_forest_total_nonneg(f2);
        assert(c.frequency == a.frequency + b.frequency);
        // the tree `t` has at least two leaves
        assert(leaf_weights(t).len() == f.len()) by {
            leaf_weights(t).to_multiset_ensures();
            root_weights(f).to_multiset_ensures();
            assert(leaf_weights(t).to_multiset().len() == root_weights(f).to_multiset().len());
            assert(root_weights(f).len() == f.len());
        }
        assert(t is Join) by {
            if t is Leaf {
                assert(leaf_weights(t).len() == 1);
            }
        }
        let t2 = lemma_merge_lightest(t, a.frequency as nat, b.frequency as nat);
        // the merged forest: its root weights and its cost
        let g = merge_step(f);
        assert(root_weights(g) =~= root_weights(f2).push(c.frequency as nat));
        assert(root_weights(f2) =~= root_weights(f1).remove(j));
        assert(root_weights(g).to_multiset() =~= leaf_weights(t2).to_multiset());
        assert(forest_consistent(g)) by {
            assert forall|p: int| 0 <= p < g.len() implies weight(weight_tree(#[trigger] g[p]))
                == g[p].frequency by {
                if p < f2.len() {
                    let p1 = if p < j {
                        p
                    } else {
                        p + 1
                    };
                    assert(f2[p] == f1[p1]);
                    let p0 = if p1 < i {
                        p1
                    } else {
                        p1 + 1
                    };
                    assert(f1[p1] == f[p0]);
                } else {
                    assert(g[p] == c);
                    assert(weight(weight_tree(f[i])) == a.frequency);
                    assert(weight(weight_tree(f1[j])) == b.frequency) by {
                        let j1 = if j < i {
                            j
                        } else {
                            j + 1
                        };
                        assert(f1[j] == f[j1]);
                    }
                }
            }
        }
        lemma_forest_cost_remove(f, i);
        lemma_forest_cost_remove(f1, j);
        assert(g.drop_last() =~= f2);
        assert(weight_tree(c) == WeightTree::Join(
            Box::new(weight_tree(a)),
            Box::new(weight_tree(b)),
        ));
        assert(weight(weight_tree(b)) == b.frequency) by {
            let j1 = if j < i {
                j
            } else {
                j + 1
            };
            assert(f1[j] == f[j1]);
        }
        assert(forest_cost(g) == forest_cost(f) + a.frequency + b.frequency);
        lemma_reduce_optimal(g, t2);
    }
}

/// Huffman coding is optimal: no binary tree whose leaves carry the frequencies of a table
/// has a shorter weighted path length (the sum over the leaves of frequency times depth)
/// than the Huffman tree of the table.
pub proof fn lemma_huffman_optimal(m: Map<u8, u64>, t: WeightTree)
    requires
        forest_total(leaves(m)) <= u64::MAX,
        leaf_weights(t).to_multiset() == table_weights(m).to_multiset(),
    ensures
        huffman_tree(m) is Some,
        cost(weight_tree(huffman_tree(m).unwrap())) <= cost(t),
{
    broadcast use vstd::seq_lib::group_to_multiset_ensures;

    let f = leaves(m);
    assert(root_weights(f) =~= table_weights(m));
    lemma_lengths(t);
    assert(f.len() >= 1) by {
        leaf_weights(t).to_multiset_ensures();
        table_weights(m).to_multiset_ensures();
        assert(leaf_weights(t).to_multiset().len() == table_weights(m).to_multiset().len());
        assert(table_weights(m).len() == sorted_symbols(m).len());
        assert(f.len() == sorted_symbols(m).len());
    }
    assert(forest_consistent(f));
    assert(forest_cost(f) == 0) by {
        lemma_leaves_cost(f);
    }
    lemma_reduce_optimal(f, t);
}

/// A forest of leaves costs nothing.
proof fn lemma_leaves_cost(f: Seq<HuffmanNode>)
    requires
        forall|i: int| 0 <= i < f.len() ==> (#[trigger] f[i]).symbol is Some,
    ensures
        forest_cost(f) == 0,
    decreases f.len(),
{
    if f.len() > 0 {
        lemma_leaves_cost(f.drop_last());
    }
}

/// The bits that a code list spends: each symbol's frequency times its code length, summed.
pub open spec fn code_cost(list: Seq<(u8, Seq<char>, u64)>) -> nat
    decreases list.len(),
{
    if list.len() == 0 {
        0
    } else {
        code_cost(list.drop_last()) + (list.last().2 as nat) * list.last().1.len()
    }
}

/// Below a node whose codes all extend `prefix` by the leaf's path, the code list carries the
/// leaf frequencies and the depths, lengthened by the prefix.
proof fn lemma_codes_weights(n: HuffmanNode, prefix: Seq<char>)
    requires
        well_formed(n),
        n.symbol is None || prefix.len() > 0,
    ensures
        leaf_codes(n, prefix).len() == leaf_weights(weight_tree(n)).len(),
        forall|i: int|
            0 <= i < leaf_codes(n, prefix).len() ==> (#[trigger] leaf_codes(n, prefix)[i]).2 as nat
                == leaf_weights(weight_tree(n))[i] && leaf_codes(n, prefix)[i].1.len() == depths(
                weight_tree(n),
            )[i] + prefix.len(),
    decreases n,
{
    lemma_lengths(weight_tree(n));
    if n.symbol is None {
        let l = *n.left.unwrap();
        let r = *n.right.unwrap();
        lemma_codes_weights(l, prefix.push('0'));
        lemma_codes_weights(r, prefix.push('1'));
        lemma_lengths(weight_tree(l));
        lemma_lengths(weight_tree(r));
        let lc = leaf_codes(l, prefix.push('0'));
        let rc = leaf_codes(r, prefix.push('1'));
        assert(leaf_codes(n, prefix) == lc + rc);
        let nl = lc.len() as int;
        assert forall|i: int| 0 <= i < leaf_codes(n, prefix).len() implies (
        #[trigger] leaf_codes(n, prefix)[i]).2 as nat == leaf_weights(weight_tree(n))[i]
            && leaf_codes(n, prefix)[i].1.len() == depths(weight_tree(n))[i] + prefix.len() by {
            if i < nl {
                assert(leaf_codes(n, prefix)[i] == lc[i]);
                assert(depths(weight_tree(n))[i] == depths(weight_tree(l))[i] + 1);
            } else {
                assert(leaf_codes(n, prefix)[i] == rc[i - nl]);
                assert(depths(weight_tree(n))[i] == depths(weight_tree(r))[i - nl] + 1);
            }
        }
    }
}

proof fn lemma_code_cost_dot(list: Seq<(u8, Seq<char>, u64)>, w: Seq<nat>, d: Seq<nat>)
    requires
        list.len() == w.len(),
        list.len() == d.len(),
        forall|i: int| 0 <= i < list.len() ==> (#[trigger] list[i]).2 as nat == w[i] && list[i].1.len() == d[i],
    ensures
        code_cost(list) == dot(w, d),
    decreases list.len(),
{
    if list.len() > 0 {
        lemma_code_cost_dot(list.drop_last(), w.drop_last(), d.drop_last());
        assert(list.last() == list[list.len() - 1]);
    }
}

/// Combining two or more trees ends in a tree whose root is not a leaf.
proof fn lemma_reduce_root(f: Seq<HuffmanNode>)
    requires
        f.len() >= 2,
    ensures
        huffman_reduce(f) matches Some(t) && t.symbol is None,
    decreases f.len(),
{
    lemma_merge_step_len(f);
    let g = merge_step(f);
    assert(huffman_reduce(f) == huffman_reduce(g));
    if g.len() == 1 {
        assert(g.last() == combine(taken_pair(f).0, taken_pair(f).1));
        assert(g[0] == g.last());
    } else {
        lemma_reduce_root(g);
    }
}

/// The Huffman code is optimal: for a table with two or more symbols, the bits that the
/// Huffman codes spend on the symbols (each frequency times its code length, summed) are at
/// most the weighted path length of any binary tree whose leaves carry the table's
/// frequencies, that is at most what any code read off such a tree spends.
pub proof fn lemma_huffman_codes_optimal(m: Map<u8, u64>, t: WeightTree)
    requires
        forest_total(leaves(m)) <= u64::MAX,
        leaf_weights(t).to_multiset() == table_weights(m).to_multiset(),
        leaf_weights(t).len() >= 2,
    ensures
        huffman_tree(m) is Some,
        code_cost(leaf_codes(huffman_tree(m).unwrap(), Seq::empty())) <= cost(t),
{
    broadcast use vstd::seq_lib::group_to_multiset_ensures;

    lemma_huffman_optimal(m, t);
    let f = leaves(m);
    lemma_leaves(m);
    lemma_reduce(f);
    assert(f.len() >= 2) by {
        leaf_weights(t).to_multiset_ensures();
        table_weights(m).to_multiset_ensures();
        assert(leaf_weights(t).to_multiset().len() == table_weights(m).to_multiset().len());
        assert(table_weights(m).len() == sorted_symbols(m).len());
    }
    lemma_reduce_root(f);
    let root = huffman_tree(m).unwrap();
    lemma_codes_weights(root, Seq::empty());
    lemma_lengths(weight_tree(root));
    lemma_cost_is_dot(weight_tree(root));
    lemma_code_cost_dot(
        leaf_codes(root, Seq::empty()),
        leaf_weights(weight_tree(root)),
        depths(weight_tree(root)),
    );
}


/// A tree whose leaves carry `ws`, left to right, none deeper than `k` when `ws` has at most
/// `2^k` entries: its weighted path length is at most `k` times the total weight.
pub proof fn lemma_shallow_tree(ws: Seq<nat>, k: nat) -> (t: WeightTree)
    requires
        1 <= ws.len() <= vstd::arithmetic::power2::pow2(k),
    ensures
        leaf_weights(t) == ws,
        weight(t) == total(ws),
        cost(t) <= k * total(ws),
    decreases ws.len(),
{
    if ws.len() == 1 {
        assert(total(ws.drop_last()) == 0);
        assert(ws.last() == ws[0]);
        assert(total(ws) == ws[0]);
        assert(seq![ws[0]] =~= ws);
        WeightTree::Leaf(ws[0])
    } else {
        if k == 0 {
            vstd::arithmetic::power2::lemma2_to64();
            assert(false);
        }
        vstd::arithmetic::power2::lemma_pow2_unfold(k);
        let h = ws.len() / 2;
        let a = ws.take(h as int);
        let b = ws.skip(h as int);
        let ta = lemma_shallow_tree(a, (k - 1) as nat);
        let tb = lemma_shallow_tree(b, (k - 1) as nat);
        assert(a + b =~= ws);
        lemma_total_concat(a, b);
        let (ca, cb, wa, wb) = (cost(ta), cost(tb), total(a), total(b));
        assert(ca + cb + wa + wb <= k * (wa + wb)) by (nonlinear_arith)
            requires
                k >= 1,
                ca <= (k - 1) * wa,
                cb <= (k - 1) * wb,
        ;
        WeightTree::Join(Box::new(ta), Box::new(tb))
    }
}

} // verus!
