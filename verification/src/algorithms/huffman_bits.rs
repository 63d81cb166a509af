use vstd::prelude::*;

use vstd::utf8::encode_utf8;

use super::huffman::{
    byte_count, code_table, combine, encoded_len, forest_total, frequencies, huffman_codes, huffman_reduce,
    huffman_tree, insert_codes, leaf, leaf_codes, leaves, lemma_byte_count, lemma_merge_step_len,
    lemma_symbols_below, merge_step, min_index, sorted_symbols, taken_pair, HuffmanNode,
};
use super::huffman_codes::{lemma_code_syms, lemma_codes_binary, lemma_insert_codes_last, list_syms};
use super::huffman_optimal::{
    code_cost, cost, leaf_weights, lemma_huffman_codes_optimal, lemma_shallow_tree, table_weights,
    total, WeightTree,
};
use super::huffman_tree::{
    forest_syms, leaf_syms, lemma_leaves, lemma_reduce, lemma_total_frequencies, well_formed,
};

verus! {

/// No symbol occurs twice in a code list.
pub open spec fn distinct_syms(list: Seq<(u8, Seq<char>, u64)>) -> bool {
    forall|i: int, j: int| 0 <= i < j < list.len() ==> list[i].0 != list[j].0
}

/// Each entry of a code list carries its symbol's frequency in `m`.
pub open spec fn freqs_from(list: Seq<(u8, Seq<char>, u64)>, m: Map<u8, u64>) -> bool {
    forall|i: int| 0 <= i < list.len() ==> (#[trigger] list[i]).2 == m[list[i].0]
}

/// A tree whose code list names each symbol once, with its frequency in `m`.
pub open spec fn tree_codes_ok(n: HuffmanNode, m: Map<u8, u64>) -> bool {
    &&& well_formed(n)
    &&& distinct_syms(leaf_codes(n, Seq::empty()))
    &&& freqs_from(leaf_codes(n, Seq::empty()), m)
}

/// A forest of such trees, no two of which share a symbol.
pub open spec fn forest_codes_ok(f: Seq<HuffmanNode>, m: Map<u8, u64>) -> bool {
    &&& forall|i: int| 0 <= i < f.len() ==> tree_codes_ok(#[trigger] f[i], m)
    &&& forall|i: int, j: int, x: u8|
        0 <= i < j < f.len() && #[trigger] leaf_syms(f[i]).contains(x) ==> !#[trigger] leaf_syms(
            f[j],
        ).contains(x)
}

/// The symbols and frequencies of a code list do not depend on the prefix of its codes.
proof fn lemma_codes_any_prefix(n: HuffmanNode, p: Seq<char>, q: Seq<char>)
    ensures
        leaf_codes(n, p).len() == leaf_codes(n, q).len(),
        forall|i: int|
            0 <= i < leaf_codes(n, p).len() ==> (#[trigger] leaf_codes(n, p)[i]).0 == leaf_codes(
                n,
                q,
            )[i].0 && leaf_codes(n, p)[i].2 == leaf_codes(n, q)[i].2,
    decreases n,
{
    if n.symbol is None {
        let (lp, lq) = match n.left {
            Some(c) => {
                lemma_codes_any_prefix(*c, p.push('0'), q.push('0'));
                (leaf_codes(*c, p.push('0')), leaf_codes(*c, q.push('0')))
            },
            None => (Seq::empty(), Seq::empty()),
        };
        let (rp, rq) = match n.right {
            Some(c) => {
                lemma_codes_any_prefix(*c, p.push('1'), q.push('1'));
                (leaf_codes(*c, p.push('1')), leaf_codes(*c, q.push('1')))
            },
            None => (Seq::empty(), Seq::empty()),
        };
        assert(leaf_codes(n, p) == lp + rp);
        assert(leaf_codes(n, q) == lq + rq);
        assert forall|i: int| 0 <= i < leaf_codes(n, p).len() implies (#[trigger] leaf_codes(
            n,
            p,
        )[i]).0 == leaf_codes(n, q)[i].0 && leaf_codes(n, p)[i].2 == leaf_codes(n, q)[i].2 by {
            if i < lp.len() {
                assert(leaf_codes(n, p)[i] == lp[i] && leaf_codes(n, q)[i] == lq[i]);
            } else {
                assert(leaf_codes(n, p)[i] == rp[i - lp.len()]);
                assert(leaf_codes(n, q)[i] == rq[i - lp.len()]);
            }
        }
    }
}

/// Each symbol of a code list is among its symbols.
proof fn lemma_list_syms_contains(list: Seq<(u8, Seq<char>, u64)>)
    ensures
        forall|i: int| 0 <= i < list.len() ==> list_syms(list).contains(#[trigger] list[i].0),
    decreases list.len(),
{
    if list.len() > 0 {
        lemma_list_syms_contains(list.drop_last());
        assert forall|i: int| 0 <= i < list.len() implies list_syms(list).contains(
            #[trigger] list[i].0,
        ) by {
            if i < list.len() - 1 {
                assert(list.drop_last()[i] == list[i]);
            }
        }
    }
}

/// The parent of two such trees without a shared symbol is such a tree.
proof fn lemma_combine_codes_ok(a: HuffmanNode, b: HuffmanNode, m: Map<u8, u64>)
    requires
        tree_codes_ok(a, m),
        tree_codes_ok(b, m),
        forall|x: u8| #[trigger] leaf_syms(a).contains(x) ==> !leaf_syms(b).contains(x),
    ensures
        tree_codes_ok(combine(a, b), m),
        leaf_syms(combine(a, b)) == leaf_syms(a) + leaf_syms(b),
{
    let e = Seq::<char>::empty();
    let c = combine(a, b);
    let la = leaf_codes(a, e.push('0'));
    let lb = leaf_codes(b, e.push('1'));
    assert(leaf_codes(c, e) == la + lb);
    lemma_codes_any_prefix(a, e.push('0'), e);
    lemma_codes_any_prefix(b, e.push('1'), e);
    lemma_code_syms(a, e.push('0'));
    lemma_code_syms(b, e.push('1'));
    lemma_list_syms_contains(la);
    lemma_list_syms_contains(lb);
    let l = leaf_codes(c, e);
    assert forall|i: int, j: int| 0 <= i < j < l.len() implies l[i].0 != l[j].0 by {
        if j < la.len() {
            assert(l[i] == la[i] && l[j] == la[j]);
            assert(la[i].0 == leaf_codes(a, e)[i].0 && la[j].0 == leaf_codes(a, e)[j].0);
        } else if i >= la.len() {
            assert(l[i] == lb[i - la.len()] && l[j] == lb[j - la.len()]);
            assert(lb[i - la.len()].0 == leaf_codes(b, e)[i - la.len()].0);
            assert(lb[j - la.len()].0 == leaf_codes(b, e)[j - la.len()].0);
        } else {
            assert(l[i] == la[i] && l[j] == lb[j - la.len()]);
            assert(leaf_syms(a).contains(la[i].0));
            assert(leaf_syms(b).contains(lb[j - la.len()].0));
        }
    }
    assert forall|i: int| 0 <= i < l.len() implies (#[trigger] l[i]).2 == m[l[i].0] by {
        if i < la.len() {
            assert(l[i] == la[i]);
            assert(la[i].0 == leaf_codes(a, e)[i].0 && la[i].2 == leaf_codes(a, e)[i].2);
        } else {
            assert(l[i] == lb[i - la.len()]);
            assert(lb[i - la.len()].0 == leaf_codes(b, e)[i - la.len()].0);
            assert(lb[i - la.len()].2 == leaf_codes(b, e)[i - la.len()].2);
        }
    }
}

/// The index in `f` of the node at index `p` of `f` with the entries at `i` and then at
/// `j` (of what remains) removed.
spec fn orig_index(i: int, j: int, p: int) -> int {
    let p1 = if p < j {
        p
    } else {
        p + 1
    };
    if p1 < i {
        p1
    } else {
        p1 + 1
    }
}

/// One combining round keeps the forest's trees naming each symbol once, with its
/// frequency, and apart from each other.
proof fn lemma_merge_codes_ok(f: Seq<HuffmanNode>, m: Map<u8, u64>)
    requires
        f.len() >= 2,
        forest_codes_ok(f, m),
    ensures
        forest_codes_ok(merge_step(f), m),
{
    lemma_merge_step_len(f);
    let i = min_index(f);
    let f1 = f.remove(i);
    let j = min_index(f1);
    let f2 = f1.remove(j);
    let j1 = if j < i {
        j
    } else {
        j + 1
    };
    let a = f[i];
    let b = f1[j];
    assert(b == f[j1]);
    assert(taken_pair(f) == (a, b));
    let c = combine(a, b);
    let g = merge_step(f);
    assert(g == f2.push(c));
    assert forall|x: u8| #[trigger] leaf_syms(a).contains(x) implies !leaf_syms(b).contains(x) by {
        if i < j1 {
            assert(leaf_syms(f[i]).contains(x) ==> !leaf_syms(f[j1]).contains(x));
        } else {
            assert(leaf_syms(f[j1]).contains(x) ==> !leaf_syms(f[i]).contains(x));
        }
    }
    lemma_combine_codes_ok(a, b, m);
    assert forall|p: int| 0 <= p < f2.len() implies #[trigger] f2[p] == f[orig_index(i, j, p)]
        && orig_index(i, j, p) != i && orig_index(i, j, p) != j1 && 0 <= orig_index(i, j, p)
        < f.len() by {
        let p1 = if p < j {
            p
        } else {
            p + 1
        };
        assert(f2[p] == f1[p1]);
    }
    assert forall|p: int| 0 <= p < g.len() implies tree_codes_ok(#[trigger] g[p], m) by {
        if p < f2.len() {
            assert(g[p] == f2[p]);
        } else {
            assert(g[p] == c);
        }
    }
    assert forall|p: int, q: int, x: u8|
        0 <= p < q < g.len() && #[trigger] leaf_syms(g[p]).contains(x) implies !#[trigger] leaf_syms(
        g[q],
    ).contains(x) by {
        let p0 = orig_index(i, j, p);
        assert(g[p] == f2[p]);
        assert(g[p] == f[p0]);
        if q < f2.len() {
            let q0 = orig_index(i, j, q);
            assert(g[q] == f2[q]);
            assert(g[q] == f[q0]);
            assert(p0 < q0);
        } else {
            assert(g[q] == c);
            if leaf_syms(c).contains(x) {
                if leaf_syms(a).contains(x) {
                    if p0 < i {
                        assert(!leaf_syms(f[i]).contains(x));
                    } else {
                        assert(leaf_syms(f[i]).contains(x) ==> !leaf_syms(f[p0]).contains(x));
                    }
                } else {
                    assert(leaf_syms(b).contains(x));
                    if p0 < j1 {
                        assert(!leaf_syms(f[j1]).contains(x));
                    } else {
                        assert(leaf_syms(f[j1]).contains(x) ==> !leaf_syms(f[p0]).contains(x));
                    }
                }
            }
        }
    }
}

/// Combining such a forest down to one tree gives a tree whose code list names each symbol
/// once, with its frequency.
proof fn lemma_reduce_codes_ok(f: Seq<HuffmanNode>, m: Map<u8, u64>)
    requires
        f.len() >= 1,
        forest_codes_ok(f, m),
    ensures
        huffman_reduce(f) matches Some(t) && tree_codes_ok(t, m),
    decreases f.len(),
{
    if f.len() == 1 {
        assert(tree_codes_ok(f[0], m));
    } else {
        lemma_merge_step_len(f);
        lemma_merge_codes_ok(f, m);
        lemma_reduce_codes_ok(merge_step(f), m);
    }
}

/// The leaves of a frequency table name each symbol once, with its frequency.
proof fn lemma_leaves_codes_ok(m: Map<u8, u64>)
    ensures
        forest_codes_ok(leaves(m), m),
{
    let syms = sorted_symbols(m);
    let f = leaves(m);
    lemma_symbols_below(m.dom(), 256);
    assert forall|i: int| 0 <= i < f.len() implies tree_codes_ok(#[trigger] f[i], m) by {
        assert(f[i] == leaf(syms[i], m[syms[i]]));
        let l = leaf_codes(f[i], Seq::empty());
        assert(l.len() == 1);
    }
    assert forall|i: int, j: int, x: u8|
        0 <= i < j < f.len() && #[trigger] leaf_syms(f[i]).contains(x) implies !#[trigger] leaf_syms(
        f[j],
    ).contains(x) by {
        assert(f[i] == leaf(syms[i], m[syms[i]]));
        assert(f[j] == leaf(syms[j], m[syms[j]]));
        assert(syms[i] < syms[j]);
    }
}

/// How often each entry's symbol occurs in `data` times the UTF-8 length of its code, summed.
spec fn count_cost(data: Seq<u8>, list: Seq<(u8, Seq<char>, u64)>) -> nat
    decreases list.len(),
{
    if list.len() == 0 {
        0
    } else {
        count_cost(data, list.drop_last()) + byte_count(data, list.last().0) * encode_utf8(
            list.last().1,
        ).len()
    }
}

/// The UTF-8 lengths of the codes of the entries for `x`, summed.
spec fn sym_cost(list: Seq<(u8, Seq<char>, u64)>, x: u8) -> nat
    decreases list.len(),
{
    if list.len() == 0 {
        0
    } else {
        sym_cost(list.drop_last(), x) + if list.last().0 == x {
            encode_utf8(list.last().1).len()
        } else {
            0
        }
    }
}

proof fn lemma_list_syms_witness(list: Seq<(u8, Seq<char>, u64)>, x: u8)
    requires
        list_syms(list).contains(x),
    ensures
        exists|i: int| 0 <= i < list.len() && #[trigger] list[i].0 == x,
    decreases list.len(),
{
    if list.last().0 == x {
        assert(list[list.len() - 1].0 == x);
    } else {
        lemma_list_syms_witness(list.drop_last(), x);
        let i = choose|i: int| 0 <= i < list.drop_last().len() && #[trigger] list.drop_last()[i].0 == x;
        assert(list[i].0 == x);
    }
}

proof fn lemma_sym_cost(list: Seq<(u8, Seq<char>, u64)>, x: u8)
    requires
        distinct_syms(list),
    ensures
        sym_cost(list, x) == if list_syms(list).contains(x) {
            encode_utf8(insert_codes(Map::empty(), list)[x]).len()
        } else {
            0
        },
    decreases list.len(),
{
    if list.len() > 0 {
        let d = list.drop_last();
        assert(distinct_syms(d)) by {
            assert forall|i: int, j: int| 0 <= i < j < d.len() implies d[i].0 != d[j].0 by {
                assert(d[i] == list[i] && d[j] == list[j]);
            }
        }
        lemma_sym_cost(d, x);
        if list.last().0 == x {
            if list_syms(d).contains(x) {
                lemma_list_syms_witness(d, x);
                let i = choose|i: int| 0 <= i < d.len() && #[trigger] d[i].0 == x;
                assert(list[i].0 == list[list.len() - 1].0);
            }
        }
    }
}

proof fn lemma_count_cost_push(data: Seq<u8>, x: u8, list: Seq<(u8, Seq<char>, u64)>)
    ensures
        count_cost(data.push(x), list) == count_cost(data, list) + sym_cost(list, x),
    decreases list.len(),
{
    if list.len() > 0 {
        lemma_count_cost_push(data, x, list.drop_last());
        let e = list.last();
        assert(data.push(x).drop_last() =~= data);
        let u = encode_utf8(e.1).len();
        let bc = byte_count(data, e.0);
        if e.0 == x {
            assert(byte_count(data.push(x), e.0) == bc + 1);
            assert((bc + 1) * u == bc * u + u) by (nonlinear_arith);
        } else {
            assert(byte_count(data.push(x), e.0) == bc);
        }
    }
}

proof fn lemma_count_cost_empty(data: Seq<u8>, list: Seq<(u8, Seq<char>, u64)>)
    requires
        data.len() == 0,
    ensures
        count_cost(data, list) == 0,
    decreases list.len(),
{
    if list.len() > 0 {
        lemma_count_cost_empty(data, list.drop_last());
        assert(byte_count(data, list.last().0) == 0);
        assert(0 * encode_utf8(list.last().1).len() == 0);
    }
}

/// With each symbol listed once, the encoded length of `data` is, summed over the entries,
/// how often the symbol occurs times the length of its code.
proof fn lemma_encoded_count(data: Seq<u8>, list: Seq<(u8, Seq<char>, u64)>)
    requires
        distinct_syms(list),
    ensures
        encoded_len(data, insert_codes(Map::empty(), list)) == count_cost(data, list),
    decreases data.len(),
{
    lemma_insert_codes_last(list);
    if data.len() == 0 {
        lemma_count_cost_empty(data, list);
    } else {
        let d = data.drop_last();
        let x = data.last();
        lemma_encoded_count(d, list);
        lemma_count_cost_push(d, x, list);
        lemma_sym_cost(list, x);
        assert(d.push(x) =~= data);
    }
}

proof fn lemma_count_cost_code_cost(data: Seq<u8>, list: Seq<(u8, Seq<char>, u64)>)
    requires
        forall|i: int|
            0 <= i < list.len() ==> (#[trigger] list[i]).2 as nat == byte_count(data, list[i].0)
                && encode_utf8(list[i].1).len() == list[i].1.len(),
    ensures
        count_cost(data, list) == code_cost(list),
    decreases list.len(),
{
    if list.len() > 0 {
        lemma_count_cost_code_cost(data, list.drop_last());
        assert(list.last() == list[list.len() - 1]);
    }
}

/// Huffman coding spends the fewest bits: when `data` holds two or more distinct bytes, the
/// number of code bits that encoding it takes (the `total_bits` that compression reports) is
/// at most the weighted path length of any binary tree whose leaves carry the byte counts of
/// `data`, that is at most what any code read off such a tree would take.
pub proof fn lemma_huffman_bits_optimal(data: Seq<u8>, t: WeightTree)
    requires
        data.len() <= u64::MAX,
        leaf_weights(t).to_multiset() == table_weights(frequencies(data)).to_multiset(),
        leaf_weights(t).len() >= 2,
    ensures
        encoded_len(data, huffman_codes(data)) <= cost(t),
{
    let m = frequencies(data);
    lemma_total_frequencies(data);
    lemma_huffman_codes_optimal(m, t);
    let root = huffman_tree(m).unwrap();
    let l = leaf_codes(root, Seq::empty());
    assert(huffman_codes(data) == insert_codes(Map::empty(), l));
    lemma_leaves(m);
    lemma_leaves_codes_ok(m);
    lemma_reduce_codes_ok(leaves(m), m);
    lemma_reduce(leaves(m));
    lemma_code_syms(root, Seq::empty());
    lemma_list_syms_contains(l);
    lemma_codes_binary(root, Seq::empty());
    assert forall|i: int| 0 <= i < l.len() implies (#[trigger] l[i]).2 as nat == byte_count(
        data,
        l[i].0,
    ) && encode_utf8(l[i].1).len() == l[i].1.len() by {
        let x = l[i].0;
        assert(list_syms(l).contains(x));
        assert(m.dom().contains(x));
        lemma_byte_count(data, x);
        assert(m[x] == byte_count(data, x) as u64);
        let code = l[i].1;
        assert(vstd::utf8::is_ascii_chars(code)) by {
            assert forall|k: int| 0 <= k < code.len() implies '\0' <= #[trigger] code[k] <= '\u{7f}' by {
                assert(l[i].1[k] == '0' || l[i].1[k] == '1');
            }
        }
        vstd::utf8::is_ascii_chars_encode_utf8(code);
    }
    lemma_encoded_count(data, l);
    lemma_count_cost_code_cost(data, l);
}


/// The weights of a symbol list add up to the total frequency of its leaves.
proof fn lemma_weights_total(syms: Seq<u8>, m: Map<u8, u64>)
    ensures
        total(syms.map_values(|s: u8| m[s] as nat)) == forest_total(
            syms.map_values(|s: u8| leaf(s, m[s])),
        ),
    decreases syms.len(),
{
    if syms.len() > 0 {
        let d = syms.drop_last();
        lemma_weights_total(d, m);
        assert(syms.map_values(|s: u8| m[s] as nat).drop_last() =~= d.map_values(
            |s: u8| m[s] as nat,
        ));
        assert(syms.map_values(|s: u8| leaf(s, m[s])).drop_last() =~= d.map_values(
            |s: u8| leaf(s, m[s]),
        ));
    }
}

/// Bytes that all have a one-character ASCII code take one bit each.
proof fn lemma_encoded_len_single(data: Seq<u8>, codes: Map<u8, Seq<char>>, s: u8)
    requires
        forall|i: int| 0 <= i < data.len() ==> data[i] == s,
        codes.contains_key(s),
        encode_utf8(codes[s]).len() == 1,
    ensures
        encoded_len(data, codes) == data.len(),
    decreases data.len(),
{
    if data.len() > 0 {
        let d = data.drop_last();
        assert(data.last() == data[data.len() - 1]);
        assert forall|i: int| 0 <= i < d.len() implies d[i] == s by {
            assert(d[i] == data[i]);
        }
        lemma_encoded_len_single(d, codes, s);
    }
}

/// Huffman coding spends at most 8 bits on each byte of the data, no more than writing each
/// byte as its own 8 bits.
pub proof fn lemma_huffman_bits_at_most_bytes(data: Seq<u8>)
    requires
        data.len() <= u64::MAX,
    ensures
        encoded_len(data, huffman_codes(data)) <= 8 * data.len(),
{
    let m = frequencies(data);
    let ws = table_weights(m);
    lemma_leaves(m);
    lemma_total_frequencies(data);
    lemma_weights_total(sorted_symbols(m), m);
    assert(total(ws) == data.len());
    if ws.len() >= 2 {
        vstd::arithmetic::power2::lemma2_to64();
        let t = lemma_shallow_tree(ws, 8);
        lemma_huffman_bits_optimal(data, t);
    } else if ws.len() == 0 {
        if data.len() > 0 {
            assert(m.dom().contains(data[0]));
        }
        assert(data =~= Seq::<u8>::empty());
    } else {
        let f = leaves(m);
        let x = sorted_symbols(m)[0];
        assert(f[0] == leaf(x, m[x]));
        assert(huffman_tree(m) == Some(f[0]));
        assert(f.drop_last().len() == 0);
        assert(forest_syms(f) =~= set![x]) by {
            assert(f.last() == f[0]);
            assert(forest_syms(f.drop_last()) =~= Set::<u8>::empty());
        }
        assert forall|i: int| 0 <= i < data.len() implies data[i] == x by {
            assert(m.dom().contains(data[i]));
        }
        let l = leaf_codes(f[0], Seq::empty());
        assert(l == seq![(x, seq!['0'], m[x])]);
        assert(l.drop_last().len() == 0);
        assert(huffman_codes(data) == code_table(f[0]));
        assert(code_table(f[0]) == insert_codes(Map::empty(), l.drop_last()).insert(x, seq!['0']));
        assert(huffman_codes(data).contains_key(x) && huffman_codes(data)[x] == seq!['0']);
        assert(encode_utf8(seq!['0']).len() == 1) by {
            vstd::utf8::is_ascii_chars_encode_utf8(seq!['0']);
        }
        lemma_encoded_len_single(data, huffman_codes(data), x);
    }
}

} // verus!
