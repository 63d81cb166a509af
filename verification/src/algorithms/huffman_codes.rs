use vstd::prelude::*;

use super::huffman::{
    char_bits, child_codes, code_table, decode_next, decode_walk, encoded_chars, insert_codes,
    leaf_codes, HuffmanNode,
};
use super::huffman_tree::{leaf_syms, well_formed};
use crate::encoding::bitstream::bit_chars;

verus! {

/// The node reached from `node` along `path` (false: left, true: right), if every child exists.
pub open spec fn follow(node: HuffmanNode, path: Seq<bool>) -> Option<HuffmanNode>
    decreases path.len(),
{
    if path.len() == 0 {
        Some(node)
    } else {
        let child = if path[0] {
            node.right
        } else {
            node.left
        };
        match child {
            Some(c) => follow(*c, path.skip(1)),
            None => None,
        }
    }
}

/// The (symbol, path) of each leaf below `node`, left subtrees first; a node with a symbol
/// counts as a leaf.
pub open spec fn leaf_paths(node: HuffmanNode) -> Seq<(u8, Seq<bool>)>
    decreases node,
{
    match node.symbol {
        Some(s) => seq![(s, Seq::<bool>::empty())],
        None => child_paths(node.left, false) + child_paths(node.right, true),
    }
}

/// The leaf paths below an optional child, each preceded by the step `bit` to that child.
pub open spec fn child_paths(child: Option<Box<HuffmanNode>>, bit: bool) -> Seq<(u8, Seq<bool>)>
    decreases child,
{
    match child {
        Some(c) => leaf_paths(*c).map_values(|e: (u8, Seq<bool>)| (e.0, seq![bit] + e.1)),
        None => Seq::empty(),
    }
}

/// The symbols of a code list.
pub open spec fn list_syms(list: Seq<(u8, Seq<char>, u64)>) -> Set<u8>
    decreases list.len(),
{
    if list.len() == 0 {
        Set::empty()
    } else {
        list_syms(list.drop_last()).insert(list.last().0)
    }
}

/// The last index of `k` among the symbols of `list`, or -1.
pub open spec fn last_index(list: Seq<(u8, Seq<char>, u64)>, k: u8) -> int
    decreases list.len(),
{
    if list.len() == 0 {
        -1
    } else if list.last().0 == k {
        list.len() - 1
    } else {
        last_index(list.drop_last(), k)
    }
}

/// The code list of a node matches its leaf paths: same symbols, and each code is the prefix
/// followed by the path's characters (a lone root leaf gets "0").
pub proof fn lemma_codes_are_paths(node: HuffmanNode, prefix: Seq<char>)
    ensures
        leaf_codes(node, prefix).len() == leaf_paths(node).len(),
        forall|i: int|
            0 <= i < leaf_paths(node).len() ==> {
                &&& (#[trigger] leaf_codes(node, prefix)[i]).0 == leaf_paths(node)[i].0
                &&& leaf_codes(node, prefix)[i].1 == if node.symbol is Some && prefix.len() == 0 {
                    seq!['0']
                } else {
                    prefix + bit_chars(leaf_paths(node)[i].1)
                }
            },
    decreases node,
{
    if node.symbol is None {
        let lc = child_codes(node.left, prefix.push('0'));
        let rc = child_codes(node.right, prefix.push('1'));
        let lp = child_paths(node.left, false);
        let rp = child_paths(node.right, true);
        match node.left {
            Some(c) => lemma_codes_are_paths(*c, prefix.push('0')),
            None => {},
        }
        match node.right {
            Some(c) => lemma_codes_are_paths(*c, prefix.push('1')),
            None => {},
        }
        assert(leaf_codes(node, prefix) == lc + rc);
        assert(leaf_paths(node) == lp + rp);
        assert(lc.len() == lp.len());
        assert(rc.len() == rp.len());
        assert forall|i: int| 0 <= i < leaf_paths(node).len() implies {
            &&& (#[trigger] leaf_codes(node, prefix)[i]).0 == leaf_paths(node)[i].0
            &&& leaf_codes(node, prefix)[i].1 == prefix + bit_chars(leaf_paths(node)[i].1)
        } by {
            if i < lc.len() {
                let c = node.left.unwrap();
                let e = leaf_paths(*c)[i];
                assert(lp[i] == (e.0, seq![false] + e.1));
                assert(lc[i].1 == prefix.push('0') + bit_chars(e.1));
                assert(bit_chars(seq![false] + e.1) =~= seq!['0'] + bit_chars(e.1));
                assert(prefix.push('0') + bit_chars(e.1) =~= prefix + bit_chars(seq![false] + e.1));
            } else {
                let j = i - lc.len();
                let c = node.right.unwrap();
                let e = leaf_paths(*c)[j];
                assert(rp[j] == (e.0, seq![true] + e.1));
                assert(rc[j].1 == prefix.push('1') + bit_chars(e.1));
                assert(bit_chars(seq![true] + e.1) =~= seq!['1'] + bit_chars(e.1));
                assert(prefix.push('1') + bit_chars(e.1) =~= prefix + bit_chars(seq![true] + e.1));
            }
        }
    } else {
        assert(bit_chars(Seq::<bool>::empty()) =~= Seq::<char>::empty());
        assert(prefix + Seq::<char>::empty() =~= prefix);
    }
}

/// Each leaf path leads from `node` to a node with the path's symbol; below a node without a
/// symbol the path is not empty.
pub proof fn lemma_paths_lead_to_leaves(node: HuffmanNode)
    ensures
        forall|i: int|
            0 <= i < leaf_paths(node).len() ==> {
                let e = #[trigger] leaf_paths(node)[i];
                &&& follow(node, e.1) is Some
                &&& follow(node, e.1).unwrap().symbol == Some(e.0)
                &&& (node.symbol is None ==> e.1.len() > 0)
            },
    decreases node,
{
    if node.symbol is None {
        let lp = child_paths(node.left, false);
        let rp = child_paths(node.right, true);
        assert(leaf_paths(node) == lp + rp);
        match node.left {
            Some(c) => lemma_paths_lead_to_leaves(*c),
            None => {},
        }
        match node.right {
            Some(c) => lemma_paths_lead_to_leaves(*c),
            None => {},
        }
        assert forall|i: int| 0 <= i < leaf_paths(node).len() implies {
            let e = #[trigger] leaf_paths(node)[i];
            &&& follow(node, e.1) is Some
            &&& follow(node, e.1).unwrap().symbol == Some(e.0)
            &&& e.1.len() > 0
        } by {
            if i < lp.len() {
                let c = node.left.unwrap();
                let e = leaf_paths(*c)[i];
                let p = seq![false] + e.1;
                assert(lp[i] == (e.0, p));
                assert(p.skip(1) =~= e.1);
                assert(p[0] == false);
            } else {
                let j = i - lp.len();
                let c = node.right.unwrap();
                let e = leaf_paths(*c)[j];
                let p = seq![true] + e.1;
                assert(rp[j] == (e.0, p));
                assert(p.skip(1) =~= e.1);
                assert(p[0] == true);
            }
        }
    } else {
        assert(follow(node, Seq::<bool>::empty()) == Some(node));
    }
}

proof fn lemma_list_syms_append(a: Seq<(u8, Seq<char>, u64)>, b: Seq<(u8, Seq<char>, u64)>)
    ensures
        list_syms(a + b) =~= list_syms(a) + list_syms(b),
    decreases b.len(),
{
    if b.len() == 0 {
        assert(a + b =~= a);
    } else {
        lemma_list_syms_append(a, b.drop_last());
        assert((a + b).drop_last() =~= a + b.drop_last());
    }
}

/// The symbols of a node's code list are its leaf symbols.
pub proof fn lemma_code_syms(node: HuffmanNode, prefix: Seq<char>)
    ensures
        list_syms(leaf_codes(node, prefix)) =~= leaf_syms(node),
    decreases node,
{
    if node.symbol is None {
        let lc = child_codes(node.left, prefix.push('0'));
        let rc = child_codes(node.right, prefix.push('1'));
        let ls = match node.left {
            Some(c) => leaf_syms(*c),
            None => Set::<u8>::empty(),
        };
        let rs = match node.right {
            Some(c) => leaf_syms(*c),
            None => Set::<u8>::empty(),
        };
        match node.left {
            Some(c) => lemma_code_syms(*c, prefix.push('0')),
            None => {
                assert(list_syms(lc) =~= Set::<u8>::empty());
            },
        }
        match node.right {
            Some(c) => lemma_code_syms(*c, prefix.push('1')),
            None => {
                assert(list_syms(rc) =~= Set::<u8>::empty());
            },
        }
        assert(list_syms(lc) =~= ls);
        assert(list_syms(rc) =~= rs);
        assert(leaf_codes(node, prefix) == lc + rc);
        assert(leaf_syms(node) == ls + rs);
        lemma_list_syms_append(lc, rc);
    } else {
        let l = leaf_codes(node, prefix);
        assert(l.drop_last() =~= Seq::<(u8, Seq<char>, u64)>::empty());
        assert(list_syms(l.drop_last()) =~= Set::<u8>::empty());
        assert(list_syms(l) =~= set![node.symbol.unwrap()]);
    }
}

/// Inserting a list of codes into an empty table gives each listed symbol the code of its
/// last entry.
pub proof fn lemma_insert_codes_last(list: Seq<(u8, Seq<char>, u64)>)
    ensures
        insert_codes(Map::empty(), list).dom() =~= list_syms(list),
        forall|k: u8|
            #[trigger] list_syms(list).contains(k) ==> {
                let i = last_index(list, k);
                &&& 0 <= i < list.len()
                &&& list[i].0 == k
                &&& insert_codes(Map::empty(), list)[k] == list[i].1
            },
    decreases list.len(),
{
    if list.len() > 0 {
        lemma_insert_codes_last(list.drop_last());
        assert forall|k: u8| #[trigger] list_syms(list).contains(k) implies {
            let i = last_index(list, k);
            &&& 0 <= i < list.len()
            &&& list[i].0 == k
            &&& insert_codes(Map::empty(), list)[k] == list[i].1
        } by {
            if list.last().0 != k {
                assert(list_syms(list.drop_last()).contains(k));
            }
        }
    }
}

/// A node's codes consist of the characters '0' and '1' only.
pub proof fn lemma_codes_binary(node: HuffmanNode, prefix: Seq<char>)
    requires
        forall|j: int| 0 <= j < prefix.len() ==> #[trigger] prefix[j] == '0' || prefix[j] == '1',
    ensures
        forall|i: int, j: int|
            0 <= i < leaf_codes(node, prefix).len() && 0 <= j < leaf_codes(node, prefix)[i].1.len()
                ==> #[trigger] leaf_codes(node, prefix)[i].1[j] == '0' || leaf_codes(node, prefix)[i].1[j]
                == '1',
        forall|i: int|
            0 <= i < leaf_codes(node, prefix).len() ==> (#[trigger] leaf_codes(node, prefix)[i]).1.len() > 0,
    decreases node,
{
    if node.symbol is None {
        let lc = child_codes(node.left, prefix.push('0'));
        let rc = child_codes(node.right, prefix.push('1'));
        match node.left {
            Some(c) => lemma_codes_binary(*c, prefix.push('0')),
            None => {},
        }
        match node.right {
            Some(c) => lemma_codes_binary(*c, prefix.push('1')),
            None => {},
        }
        assert(leaf_codes(node, prefix) == lc + rc);
        assert forall|i: int, j: int|
            0 <= i < leaf_codes(node, prefix).len() && 0 <= j < leaf_codes(node, prefix)[i].1.len()
                implies #[trigger] leaf_codes(node, prefix)[i].1[j] == '0' || leaf_codes(node, prefix)[i].1[j]
                == '1' by {
            if i < lc.len() {
                assert(leaf_codes(node, prefix)[i] == lc[i]);
            } else {
                assert(leaf_codes(node, prefix)[i] == rc[i - lc.len()]);
            }
        }
        assert forall|i: int|
            0 <= i < leaf_codes(node, prefix).len() implies (#[trigger] leaf_codes(node, prefix)[i]).1.len() > 0 by {
            if i < lc.len() {
                assert(leaf_codes(node, prefix)[i] == lc[i]);
            } else {
                assert(leaf_codes(node, prefix)[i] == rc[i - lc.len()]);
            }
        }
    }
}

/// Walking from a node along a path to a leaf emits the leaf's symbol and restarts at the root.
pub proof fn lemma_decode_path(root: HuffmanNode, node: HuffmanNode, p: Seq<bool>, rest: Seq<bool>, s: u8)
    requires
        well_formed(node),
        p.len() > 0,
        follow(node, p) is Some,
        follow(node, p).unwrap().symbol == Some(s),
    ensures
        decode_walk(root, node, p + rest) == seq![s] + decode_walk(root, root, rest),
    decreases p.len(),
{
    let child = if p[0] {
        node.right
    } else {
        node.left
    };
    assert(child is Some);
    let c = *child.unwrap();
    assert(node.symbol is None);
    assert(well_formed(c));
    let bits = p + rest;
    assert(bits[0] == p[0]);
    assert(decode_next(root, node, bits[0]) == c);
    assert(bits.skip(1) =~= p.skip(1) + rest);
    if p.len() == 1 {
        assert(p.skip(1) =~= Seq::<bool>::empty());
        assert(p.skip(1) + rest =~= rest);
        assert(c.symbol == Some(s));
    } else {
        let q = p.skip(1);
        assert(follow(node, p) == follow(c, q));
        assert(follow(c, q) is Some);
        let g = if q[0] {
            c.right
        } else {
            c.left
        };
        assert(g is Some);
        assert(c.symbol is None);
        lemma_decode_path(root, c, q, rest, s);
    }
}

/// The characters of a code table entry of a well-formed tree decode to its symbol.
pub proof fn lemma_decode_code(root: HuffmanNode, x: u8, rest: Seq<bool>)
    requires
        well_formed(root),
        code_table(root).contains_key(x),
    ensures
        decode_walk(root, root, char_bits(code_table(root)[x]) + rest) == seq![x] + decode_walk(root, root, rest),
{
    let list = leaf_codes(root, Seq::empty());
    lemma_insert_codes_last(list);
    lemma_codes_are_paths(root, Seq::empty());
    lemma_paths_lead_to_leaves(root);
    let i = last_index(list, x);
    let code = list[i].1;
    let e = leaf_paths(root)[i];
    assert(code_table(root)[x] == code);
    assert(e.0 == x);
    match root.symbol {
        Some(s) => {
            assert(code == seq!['0']);
            assert(char_bits(code) =~= seq![false]);
            assert(leaf_paths(root) == seq![(s, Seq::<bool>::empty())]);
            assert(x == s);
            let bits = char_bits(code) + rest;
            assert(bits[0] == false);
            assert(decode_next(root, root, false) == root);
            assert(bits.skip(1) =~= rest);
        },
        None => {
            assert(code == Seq::<char>::empty() + bit_chars(e.1));
            assert(char_bits(code) =~= e.1);
            lemma_decode_path(root, root, e.1, rest, x);
        },
    }
}

/// The concatenated codes of `data` decode back to `data`.
pub proof fn lemma_decode_data(root: HuffmanNode, data: Seq<u8>, rest: Seq<bool>)
    requires
        well_formed(root),
        forall|i: int| 0 <= i < data.len() ==> code_table(root).contains_key(#[trigger] data[i]),
    ensures
        decode_walk(root, root, char_bits(encoded_chars(data, code_table(root))) + rest) == data
            + decode_walk(root, root, rest),
    decreases data.len(),
{
    let codes = code_table(root);
    if data.len() == 0 {
        assert(char_bits(encoded_chars(data, codes)) + rest =~= rest);
        assert(data + decode_walk(root, root, rest) =~= decode_walk(root, root, rest));
    } else {
        let d = data.drop_last();
        let x = data.last();
        assert(codes.contains_key(data[data.len() - 1]));
        let a = char_bits(encoded_chars(d, codes));
        let b = char_bits(codes[x]);
        assert(char_bits(encoded_chars(data, codes)) =~= a + b);
        assert((a + b) + rest =~= a + (b + rest));
        assert forall|i: int| 0 <= i < d.len() implies codes.contains_key(#[trigger] d[i]) by {
            assert(d[i] == data[i]);
        }
        lemma_decode_data(root, d, b + rest);
        lemma_decode_code(root, x, rest);
        assert(d + (seq![x] + decode_walk(root, root, rest)) =~= data + decode_walk(root, root, rest));
    }
}

/// `x` is a prefix of `y`.
pub open spec fn is_prefix_of<T>(x: Seq<T>, y: Seq<T>) -> bool {
    x.len() <= y.len() && y.take(x.len() as int) == x
}

proof fn lemma_follow_append(node: HuffmanNode, p: Seq<bool>, q: Seq<bool>)
    requires
        follow(node, p) is Some,
    ensures
        follow(node, p + q) == follow(follow(node, p).unwrap(), q),
    decreases p.len(),
{
    if p.len() > 0 {
        let child = if p[0] {
            node.right
        } else {
            node.left
        };
        assert((p + q)[0] == p[0]);
        assert((p + q).skip(1) =~= p.skip(1) + q);
        lemma_follow_append(*child.unwrap(), p.skip(1), q);
    } else {
        assert(p + q =~= q);
    }
}

/// No code of a well-formed tree is a prefix of the code of another symbol.
pub proof fn lemma_prefix_free(root: HuffmanNode, a: u8, b: u8)
    requires
        well_formed(root),
        a != b,
        code_table(root).contains_key(a),
        code_table(root).contains_key(b),
    ensures
        !is_prefix_of(code_table(root)[a], code_table(root)[b]),
{
    let list = leaf_codes(root, Seq::empty());
    lemma_insert_codes_last(list);
    lemma_codes_are_paths(root, Seq::empty());
    lemma_paths_lead_to_leaves(root);
    let ia = last_index(list, a);
    let ib = last_index(list, b);
    let pa = leaf_paths(root)[ia].1;
    let pb = leaf_paths(root)[ib].1;
    match root.symbol {
        Some(s) => {
            assert(leaf_paths(root) == seq![(s, Seq::<bool>::empty())]);
            assert(a == s && b == s);
        },
        None => {
            let ca = code_table(root)[a];
            let cb = code_table(root)[b];
            assert(ca == Seq::<char>::empty() + bit_chars(pa));
            assert(cb == Seq::<char>::empty() + bit_chars(pb));
            if is_prefix_of(ca, cb) {
                assert(pb.take(pa.len() as int) =~= pa) by {
                    assert forall|j: int| 0 <= j < pa.len() implies pb[j] == pa[j] by {
                        assert(cb[j] == ca[j]);
                        assert(cb[j] == bit_chars(pb)[j]);
                        assert(ca[j] == bit_chars(pa)[j]);
                    }
                }
                let q = pb.skip(pa.len() as int);
                assert(pa + q =~= pb);
                lemma_follow_append(root, pa, q);
                let la = follow(root, pa).unwrap();
                assert(la.symbol == Some(a));
                if q.len() > 0 {
                    assert(well_formed(root));
                    lemma_follow_wf(root, pa);
                    assert(la.left is None && la.right is None);
                    assert(follow(la, q) is None);
                } else {
                    assert(q =~= Seq::<bool>::empty());
                    assert(follow(la, q) == Some(la));
                }
            }
        },
    }
}

/// Following a path through a well-formed tree reaches a well-formed node.
proof fn lemma_follow_wf(node: HuffmanNode, p: Seq<bool>)
    requires
        well_formed(node),
        follow(node, p) is Some,
    ensures
        well_formed(follow(node, p).unwrap()),
    decreases p.len(),
{
    if p.len() > 0 {
        let child = if p[0] {
            node.right
        } else {
            node.left
        };
        lemma_follow_wf(*child.unwrap(), p.skip(1));
    }
}

} // verus!
