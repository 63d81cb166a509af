use vstd::prelude::*;

use super::huffman::{
    byte_count, combine, forest_total, frequencies, huffman_reduce, leaf, leaf_codes, leaves,
    lemma_byte_count, lemma_forest_total_nonneg, lemma_forest_total_push,
    lemma_forest_total_remove, lemma_merge_step_len, lemma_symbols_below, merge_step, merge_trace,
    min_index, sorted_symbols, symbols_below, taken_pair, HuffmanNode,
};

verus! {

/// A node with a symbol is a leaf without children; a node without one has two children.
pub open spec fn well_formed(node: HuffmanNode) -> bool
    decreases node,
{
    match node.symbol {
        Some(_) => node.left is None && node.right is None,
        None => match node.left {
            Some(l) => match node.right {
                Some(r) => well_formed(*l) && well_formed(*r),
                None => false,
            },
            None => false,
        },
    }
}

/// The symbols of the leaves of a tree.
pub open spec fn leaf_syms(node: HuffmanNode) -> Set<u8>
    decreases node,
{
    match node.symbol {
        Some(s) => set![s],
        None => (match node.left {
            Some(c) => leaf_syms(*c),
            None => Set::empty(),
        }) + (match node.right {
            Some(c) => leaf_syms(*c),
            None => Set::empty(),
        }),
    }
}

/// The number of leaves of a tree.
pub open spec fn leaf_count(node: HuffmanNode) -> nat
    decreases node,
{
    match node.symbol {
        Some(_) => 1,
        None => (match node.left {
            Some(c) => leaf_count(*c),
            None => 0,
        }) + (match node.right {
            Some(c) => leaf_count(*c),
            None => 0,
        }),
    }
}

/// The number of leaves of a forest.
pub open spec fn forest_leaves(f: Seq<HuffmanNode>) -> nat
    decreases f.len(),
{
    if f.len() == 0 {
        0
    } else {
        forest_leaves(f.drop_last()) + leaf_count(f.last())
    }
}

/// The leaf symbols of a forest.
pub open spec fn forest_syms(f: Seq<HuffmanNode>) -> Set<u8>
    decreases f.len(),
{
    if f.len() == 0 {
        Set::empty()
    } else {
        forest_syms(f.drop_last()) + leaf_syms(f.last())
    }
}

/// Every tree of the forest is well formed.
pub open spec fn forest_wf(f: Seq<HuffmanNode>) -> bool {
    forall|i: int| 0 <= i < f.len() ==> well_formed(#[trigger] f[i])
}

pub proof fn lemma_leaf_codes_len(node: HuffmanNode, prefix: Seq<char>)
    ensures
        leaf_codes(node, prefix).len() == leaf_count(node),
    decreases node,
{
    if node.symbol is None {
        match node.left {
            Some(c) => lemma_leaf_codes_len(*c, prefix.push('0')),
            None => {},
        }
        match node.right {
            Some(c) => lemma_leaf_codes_len(*c, prefix.push('1')),
            None => {},
        }
    }
}

proof fn lemma_forest_leaves_remove(f: Seq<HuffmanNode>, i: int)
    requires
        0 <= i < f.len(),
    ensures
        forest_leaves(f) == forest_leaves(f.remove(i)) + leaf_count(f[i]),
        forest_syms(f) == forest_syms(f.remove(i)) + leaf_syms(f[i]),
    decreases f.len(),
{
    if i < f.len() - 1 {
        lemma_forest_leaves_remove(f.drop_last(), i);
        assert(f.remove(i).drop_last() =~= f.drop_last().remove(i));
        assert(f.remove(i).last() == f.last());
        assert(forest_syms(f) =~= forest_syms(f.remove(i)) + leaf_syms(f[i]));
    } else {
        assert(f.remove(i) =~= f.drop_last());
    }
}

proof fn lemma_forest_leaves_push(f: Seq<HuffmanNode>, n: HuffmanNode)
    ensures
        forest_leaves(f.push(n)) == forest_leaves(f) + leaf_count(n),
        forest_syms(f.push(n)) == forest_syms(f) + leaf_syms(n),
{
    assert(f.push(n).drop_last() =~= f);
}

/// One combining round keeps the total frequency, the leaves and well-formedness.
pub proof fn lemma_merge_preserves(f: Seq<HuffmanNode>)
    requires
        f.len() >= 2,
        forest_total(f) <= u64::MAX,
    ensures
        merge_step(f).len() == f.len() - 1,
        forest_total(merge_step(f)) == forest_total(f),
        forest_leaves(merge_step(f)) == forest_leaves(f),
        forest_syms(merge_step(f)) =~= forest_syms(f),
        forest_wf(f) ==> forest_wf(merge_step(f)),
{
    lemma_merge_step_len(f);
    let i = min_index(f);
    let f1 = f.remove(i);
    let j = min_index(f1);
    let f2 = f1.remove(j);
    let (a, b) = taken_pair(f);
    lemma_forest_total_remove(f, i);
    lemma_forest_total_remove(f1, j);
    lemma_forest_total_nonneg(f2);
    lemma_forest_leaves_remove(f, i);
    lemma_forest_leaves_remove(f1, j);
    let c = combine(a, b);
    assert(c.frequency == a.frequency + b.frequency);
    lemma_forest_total_push(f2, c);
    lemma_forest_leaves_push(f2, c);
    assert(leaf_syms(c) == leaf_syms(a) + leaf_syms(b));
    if forest_wf(f) {
        assert forall|k: int| 0 <= k < merge_step(f).len() implies well_formed(#[trigger] merge_step(f)[k]) by {
            if k < f2.len() {
                let k1 = if k < j { k } else { k + 1 };
                assert(f2[k] == f1[k1]);
                let k0 = if k1 < i { k1 } else { k1 + 1 };
                assert(f1[k1] == f[k0]);
            } else {
                assert(well_formed(f[i]));
                assert(well_formed(f1[j]));
            }
        }
    }
}

/// Combining a non-empty forest of well-formed trees gives one well-formed tree with the
/// forest's total frequency, leaves and leaf symbols, after one round per tree beyond the first.
pub proof fn lemma_reduce(f: Seq<HuffmanNode>)
    requires
        f.len() >= 1,
        forest_total(f) <= u64::MAX,
    ensures
        huffman_reduce(f) is Some,
        huffman_reduce(f).unwrap().frequency == forest_total(f),
        leaf_count(huffman_reduce(f).unwrap()) == forest_leaves(f),
        leaf_syms(huffman_reduce(f).unwrap()) == forest_syms(f),
        forest_wf(f) ==> well_formed(huffman_reduce(f).unwrap()),
        merge_trace(f).len() == f.len() - 1,
    decreases f.len(),
{
    if f.len() == 1 {
        let e = f.drop_last();
        assert(e =~= Seq::<HuffmanNode>::empty());
        assert(forest_total(e) == 0);
        assert(forest_syms(e) == Set::<u8>::empty());
        assert(forest_leaves(e) == 0);
        assert(f.last() == f[0]);
        assert(forest_total(f) == f[0].frequency);
        assert(forest_syms(f) == Set::<u8>::empty() + leaf_syms(f[0]));
        assert(forest_syms(f) =~= leaf_syms(f[0]));
    } else {
        lemma_merge_preserves(f);
        lemma_reduce(merge_step(f));
    }
}

/// The leaves of a frequency table form a forest of well-formed trees with one leaf per symbol.
pub proof fn lemma_leaves(m: Map<u8, u64>)
    ensures
        forest_wf(leaves(m)),
        leaves(m).len() == sorted_symbols(m).len(),
        sorted_symbols(m).len() <= 256,
        forest_leaves(leaves(m)) == leaves(m).len(),
        forest_syms(leaves(m)) =~= m.dom(),
        sorted_symbols(m).len() == 0 <==> m.dom() =~= Set::<u8>::empty(),
{
    lemma_leaves_below(m, 256);
    lemma_symbols_below(m.dom(), 256);
    if m.dom() =~= Set::<u8>::empty() {
    } else {
        let x = m.dom().choose();
        assert(sorted_symbols(m).contains(x));
    }
}

proof fn lemma_leaves_below(m: Map<u8, u64>, k: int)
    requires
        0 <= k <= 256,
    ensures
        ({
            let f = symbols_below(m.dom(), k).map_values(|s: u8| leaf(s, m[s]));
            &&& forest_wf(f)
            &&& forest_leaves(f) == f.len()
            &&& forest_syms(f) =~= m.dom().filter(|x: u8| x < k)
        }),
    decreases k,
{
    let f = symbols_below(m.dom(), k).map_values(|s: u8| leaf(s, m[s]));
    if k > 0 {
        lemma_leaves_below(m, k - 1);
        let g = symbols_below(m.dom(), k - 1).map_values(|s: u8| leaf(s, m[s]));
        if m.dom().contains((k - 1) as u8) {
            assert(f =~= g.push(leaf((k - 1) as u8, m[(k - 1) as u8])));
            lemma_forest_leaves_push(g, leaf((k - 1) as u8, m[(k - 1) as u8]));
        } else {
            assert(f =~= g);
        }
    } else {
        assert(f =~= Seq::<HuffmanNode>::empty());
    }
}

/// The sum of the byte counts of the bytes below `k`.
pub open spec fn count_sum(data: Seq<u8>, k: int) -> nat
    decreases k,
{
    if k <= 0 {
        0
    } else {
        count_sum(data, k - 1) + byte_count(data, (k - 1) as u8)
    }
}

proof fn lemma_count_sum_push(data: Seq<u8>, x: u8, k: int)
    requires
        0 <= k <= 256,
    ensures
        count_sum(data.push(x), k) == count_sum(data, k) + (if x < k {
            1nat
        } else {
            0nat
        }),
    decreases k,
{
    if k > 0 {
        lemma_count_sum_push(data, x, k - 1);
        assert(data.push(x).drop_last() =~= data);
    }
}

proof fn lemma_count_sum_len(data: Seq<u8>)
    ensures
        count_sum(data, 256) == data.len(),
    decreases data.len(),
{
    if data.len() == 0 {
        lemma_count_sum_zero(data, 256);
    } else {
        lemma_count_sum_len(data.drop_last());
        lemma_count_sum_push(data.drop_last(), data.last(), 256);
        assert(data.drop_last().push(data.last()) =~= data);
    }
}

proof fn lemma_count_sum_zero(data: Seq<u8>, k: int)
    requires
        data.len() == 0,
    ensures
        count_sum(data, k) == 0,
    decreases k,
{
    if k > 0 {
        lemma_count_sum_zero(data, k - 1);
    }
}

proof fn lemma_total_below(data: Seq<u8>, k: int)
    requires
        0 <= k <= 256,
        data.len() <= u64::MAX,
    ensures
        forest_total(
            symbols_below(frequencies(data).dom(), k).map_values(
                |s: u8| leaf(s, frequencies(data)[s]),
            ),
        ) == count_sum(data, k),
    decreases k,
{
    let m = frequencies(data);
    let f = symbols_below(m.dom(), k).map_values(|s: u8| leaf(s, m[s]));
    if k > 0 {
        lemma_total_below(data, k - 1);
        let g = symbols_below(m.dom(), k - 1).map_values(|s: u8| leaf(s, m[s]));
        let x = (k - 1) as u8;
        lemma_byte_count(data, x);
        if m.dom().contains(x) {
            assert(f =~= g.push(leaf(x, m[x])));
            lemma_forest_total_push(g, leaf(x, m[x]));
        } else {
            assert(f =~= g);
        }
    } else {
        assert(f =~= Seq::<HuffmanNode>::empty());
    }
}

/// The frequencies of the leaves of `data`'s table add up to its length.
pub proof fn lemma_total_frequencies(data: Seq<u8>)
    requires
        data.len() <= u64::MAX,
    ensures
        forest_total(leaves(frequencies(data))) == data.len(),
{
    lemma_total_below(data, 256);
    lemma_count_sum_len(data);
}

/// With every frequency at most `bound`, the leaves add up to at most `bound` per symbol.
pub proof fn lemma_total_bound(m: Map<u8, u64>, bound: int)
    requires
        forall|s: u8| m.contains_key(s) ==> m[s] <= bound,
        bound >= 0,
    ensures
        forest_total(leaves(m)) <= 256 * bound,
{
    lemma_total_bound_below(m, bound, 256);
}

proof fn lemma_total_bound_below(m: Map<u8, u64>, bound: int, k: int)
    requires
        forall|s: u8| m.contains_key(s) ==> m[s] <= bound,
        bound >= 0,
        0 <= k <= 256,
    ensures
        forest_total(symbols_below(m.dom(), k).map_values(|s: u8| leaf(s, m[s]))) <= k * bound,
    decreases k,
{
    let f = symbols_below(m.dom(), k).map_values(|s: u8| leaf(s, m[s]));
    if k > 0 {
        lemma_total_bound_below(m, bound, k - 1);
        let g = symbols_below(m.dom(), k - 1).map_values(|s: u8| leaf(s, m[s]));
        let x = (k - 1) as u8;
        if m.dom().contains(x) {
            assert(f =~= g.push(leaf(x, m[x])));
            lemma_forest_total_push(g, leaf(x, m[x]));
        } else {
            assert(f =~= g);
        }
        assert((k - 1) * bound + bound == k * bound) by (nonlinear_arith);
        assert(0 <= (k - 1) * bound) by (nonlinear_arith)
            requires
                k >= 1,
                bound >= 0,
        ;
    } else {
        assert(f =~= Seq::<HuffmanNode>::empty());
    }
}

} // verus!
