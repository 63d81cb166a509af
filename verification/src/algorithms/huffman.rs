use std::collections::HashMap;

use vstd::prelude::*;

use crate::encoding::bitstream::{BitstreamWriter, bytes_to_bits, pad_to_bytes, bit_of, lemma_bytes_to_bits_injective};
use super::huffman_tree::{lemma_leaf_codes_len, lemma_leaves, lemma_reduce, lemma_total_bound, lemma_total_frequencies, leaf_count, forest_leaves};
use super::lzma::{le_u16, le_u32, u32_le_bytes};
use super::{AlgorithmStep, CompressedData, CompressionAlgorithm, CompressionResult, Metadata, StepState};

verus! {

broadcast use vstd::std_specs::hash::group_hash_axioms;

/// A node in the Huffman tree.
#[derive(Debug)]
pub struct HuffmanNode {
    pub frequency: u64,
    pub symbol: Option<u8>,
    pub left: Option<Box<HuffmanNode>>,
    pub right: Option<Box<HuffmanNode>>,
}

/// Huffman encoder/decoder with step-by-step state recording.
#[derive(Debug, Clone)]
pub struct HuffmanCoder {
    /// Which layer of Huffman encoding this is (1 or 2).
    pub layer: u8,
}

/// The number of occurrences of `b` in `data`.
pub open spec fn byte_count(data: Seq<u8>, b: u8) -> nat
    decreases data.len(),
{
    if data.len() == 0 {
        0
    } else {
        byte_count(data.drop_last(), b) + (if data.last() == b {
            1nat
        } else {
            0nat
        })
    }
}

/// The frequency table of `data`: each byte that occurs, with its number of occurrences.
pub open spec fn frequencies(data: Seq<u8>) -> Map<u8, u64> {
    Map::new(|b: u8| data.contains(b), |b: u8| byte_count(data, b) as u64)
}

/// How often each byte value occurs in `data`: entry `b` counts the bytes equal to `b`.
pub fn byte_counts(data: &[u8]) -> (counts: Vec<u64>)
    ensures
        counts@.len() == 256,
        forall|x: int| 0 <= x < 256 ==> #[trigger] counts@[x] == byte_count(data@, x as u8),
{
    let mut counts: Vec<u64> = Vec::new();
    let mut c: usize = 0;
    while c < 256
        invariant
            c <= 256,
            counts@.len() == c,
            forall|x: int| 0 <= x < c ==> counts@[x] == 0,
        decreases 256 - c,
    {
        counts.push(0);
        c += 1;
    }
    let mut i: usize = 0;
    while i < data.len()
        invariant
            i <= data@.len(),
            counts@.len() == 256,
            forall|x: int| 0 <= x < 256 ==> #[trigger] counts@[x] == byte_count(data@.take(i as int), x as u8),
        decreases data.len() - i,
    {
        let b = data[i];
        proof {
            assert(data@.take(i + 1).drop_last() =~= data@.take(i as int));
            lemma_byte_count(data@.take(i as int), b);
            assert(byte_count(data@.take(i as int), b) <= i);
        }
        let old_count = counts[b as usize];
        counts.set(b as usize, old_count + 1);
        i += 1;
        proof {
            assert forall|x: int| 0 <= x < 256 implies #[trigger] counts@[x] == byte_count(
                data@.take(i as int),
                x as u8,
            ) by {
                assert(data@.take(i as int).last() == b);
            }
        }
    }
    assert(data@.take(data@.len() as int) =~= data@);
    counts
}

/// The members of `dom` below `k`, in increasing order.
pub open spec fn symbols_below(dom: Set<u8>, k: int) -> Seq<u8>
    decreases k,
{
    if k <= 0 {
        Seq::empty()
    } else if dom.contains((k - 1) as u8) {
        symbols_below(dom, k - 1).push((k - 1) as u8)
    } else {
        symbols_below(dom, k - 1)
    }
}

/// The keys of `m` in increasing order.
pub open spec fn sorted_symbols(m: Map<u8, u64>) -> Seq<u8> {
    symbols_below(m.dom(), 256)
}

/// The keys below `k` are listed once each, in increasing order.
pub proof fn lemma_symbols_below(dom: Set<u8>, k: int)
    requires
        0 <= k <= 256,
    ensures
        symbols_below(dom, k).len() <= k,
        forall|i: int|
            0 <= i < symbols_below(dom, k).len() ==> (#[trigger] symbols_below(dom, k)[i]) < k
                && dom.contains(symbols_below(dom, k)[i]),
        forall|i: int, j: int|
            0 <= i < j < symbols_below(dom, k).len() ==> symbols_below(dom, k)[i] < symbols_below(
                dom,
                k,
            )[j],
        forall|x: u8| x < k && dom.contains(x) ==> symbols_below(dom, k).contains(x),
    decreases k,
{
    if k > 0 {
        lemma_symbols_below(dom, k - 1);
        let prev = symbols_below(dom, k - 1);
        if dom.contains((k - 1) as u8) {
            assert forall|x: u8| x < k && dom.contains(x) implies symbols_below(dom, k).contains(x) by {
                if x < k - 1 {
                    let i = choose|i: int| 0 <= i < prev.len() && prev[i] == x;
                    assert(symbols_below(dom, k)[i] == x);
                } else {
                    assert(symbols_below(dom, k)[prev.len() as int] == x);
                }
            }
        }
    }
}

/// The smallest symbol in a subtree (255 stands in for a missing child).
pub open spec fn min_symbol(node: HuffmanNode) -> u8
    decreases node,
{
    match node.symbol {
        Some(s) => s,
        None => {
            let l = match node.left {
                Some(c) => min_symbol(*c),
                None => 255u8,
            };
            let r = match node.right {
                Some(c) => min_symbol(*c),
                None => 255u8,
            };
            if l <= r {
                l
            } else {
                r
            }
        },
    }
}

/// `a` is taken before `b` when combining: lower frequency first, then lower smallest symbol.
pub open spec fn precedes(a: HuffmanNode, b: HuffmanNode) -> bool {
    a.frequency < b.frequency || (a.frequency == b.frequency && min_symbol(a) < min_symbol(b))
}

/// The index of the first node among `f[..k]` that no other precedes.
pub open spec fn min_index_below(f: Seq<HuffmanNode>, k: int) -> int
    decreases k,
{
    if k <= 1 {
        0
    } else {
        let m = min_index_below(f, k - 1);
        if precedes(f[k - 1], f[m]) {
            k - 1
        } else {
            m
        }
    }
}

/// The index of the node that is taken next from the forest.
pub open spec fn min_index(f: Seq<HuffmanNode>) -> int {
    min_index_below(f, f.len() as int)
}

/// A leaf of `symbol` with `frequency`.
pub open spec fn leaf(symbol: u8, frequency: u64) -> HuffmanNode {
    HuffmanNode { frequency, symbol: Some(symbol), left: None, right: None }
}

/// The leaves of a frequency table, in symbol order.
pub open spec fn leaves(m: Map<u8, u64>) -> Seq<HuffmanNode> {
    sorted_symbols(m).map_values(|s: u8| leaf(s, m[s]))
}

/// The parent of `a` and `b`.
pub open spec fn combine(a: HuffmanNode, b: HuffmanNode) -> HuffmanNode {
    HuffmanNode {
        frequency: (a.frequency + b.frequency) as u64,
        symbol: None,
        left: Some(Box::new(a)),
        right: Some(Box::new(b)),
    }
}

/// The two nodes taken from the forest in one combining round.
pub open spec fn taken_pair(f: Seq<HuffmanNode>) -> (HuffmanNode, HuffmanNode) {
    let a = f[min_index(f)];
    let f1 = f.remove(min_index(f));
    (a, f1[min_index(f1)])
}

/// The forest after one combining round: the two taken nodes are removed and their
/// parent is added at the end.
pub open spec fn merge_step(f: Seq<HuffmanNode>) -> Seq<HuffmanNode> {
    let f1 = f.remove(min_index(f));
    let f2 = f1.remove(min_index(f1));
    f2.push(combine(taken_pair(f).0, taken_pair(f).1))
}

pub proof fn lemma_merge_step_len(f: Seq<HuffmanNode>)
    requires
        f.len() >= 2,
    ensures
        merge_step(f).len() == f.len() - 1,
        0 <= min_index(f) < f.len(),
        0 <= min_index(f.remove(min_index(f))) < f.len() - 1,
{
    lemma_min_index_bounds(f, f.len() as int);
    lemma_min_index_bounds(f.remove(min_index(f)), f.len() - 1);
}

/// The tree that combining the forest down to one node gives, if the forest is not empty.
pub open spec fn huffman_reduce(f: Seq<HuffmanNode>) -> Option<HuffmanNode>
    decreases f.len(),
{
    if f.len() == 0 {
        None
    } else if f.len() == 1 {
        Some(f[0])
    } else {
        proof {
            lemma_merge_step_len(f);
        }
        huffman_reduce(merge_step(f))
    }
}

/// The pairs taken in each combining round, in order.
pub open spec fn merge_trace(f: Seq<HuffmanNode>) -> Seq<(HuffmanNode, HuffmanNode)>
    decreases f.len(),
{
    if f.len() <= 1 {
        Seq::empty()
    } else {
        proof {
            lemma_merge_step_len(f);
        }
        seq![taken_pair(f)] + merge_trace(merge_step(f))
    }
}

/// The Huffman tree of a frequency table.
pub open spec fn huffman_tree(m: Map<u8, u64>) -> Option<HuffmanNode> {
    huffman_reduce(leaves(m))
}

/// The sum of the frequencies of a forest.
pub open spec fn forest_total(f: Seq<HuffmanNode>) -> int
    decreases f.len(),
{
    if f.len() == 0 {
        0
    } else {
        forest_total(f.drop_last()) + f.last().frequency
    }
}

/// The visualization state of a node and its subtrees.
pub open spec fn node_state(node: HuffmanNode) -> StepState
    decreases node,
{
    StepState::HuffmanBuildNode {
        symbol: node.symbol,
        frequency: node.frequency,
        is_leaf: node.symbol is Some,
        left_child: match node.left {
            Some(c) => Some(Box::new(node_state(*c))),
            None => None,
        },
        right_child: match node.right {
            Some(c) => Some(Box::new(node_state(*c))),
            None => None,
        },
    }
}

/// The step that records the combination of `a` and `b`.
pub open spec fn combine_state(a: HuffmanNode, b: HuffmanNode) -> StepState {
    StepState::HuffmanBuildNode {
        symbol: None,
        frequency: (a.frequency + b.frequency) as u64,
        is_leaf: false,
        left_child: Some(Box::new(node_state(a))),
        right_child: Some(Box::new(node_state(b))),
    }
}

pub proof fn lemma_forest_total_remove(f: Seq<HuffmanNode>, i: int)
    requires
        0 <= i < f.len(),
    ensures
        forest_total(f) == forest_total(f.remove(i)) + f[i].frequency,
    decreases f.len(),
{
    if i < f.len() - 1 {
        lemma_forest_total_remove(f.drop_last(), i);
        assert(f.remove(i).drop_last() =~= f.drop_last().remove(i));
        assert(f.remove(i).last() == f.last());
    } else {
        assert(f.remove(i) =~= f.drop_last());
    }
}

pub proof fn lemma_forest_total_push(f: Seq<HuffmanNode>, n: HuffmanNode)
    ensures
        forest_total(f.push(n)) == forest_total(f) + n.frequency,
{
    assert(f.push(n).drop_last() =~= f);
}

pub proof fn lemma_forest_total_bounds(f: Seq<HuffmanNode>, i: int)
    requires
        0 <= i < f.len(),
    ensures
        f[i].frequency <= forest_total(f),
        forest_total(f) >= 0,
    decreases f.len(),
{
    lemma_forest_total_nonneg(f);
    lemma_forest_total_remove(f, i);
    lemma_forest_total_nonneg(f.remove(i));
}

pub proof fn lemma_forest_total_nonneg(f: Seq<HuffmanNode>)
    ensures
        forest_total(f) >= 0,
    decreases f.len(),
{
    if f.len() > 0 {
        lemma_forest_total_nonneg(f.drop_last());
    }
}

pub proof fn lemma_min_index_bounds(f: Seq<HuffmanNode>, k: int)
    requires
        1 <= k <= f.len(),
    ensures
        0 <= min_index_below(f, k) < k,
    decreases k,
{
    if k > 1 {
        lemma_min_index_bounds(f, k - 1);
    }
}

/// The (symbol, code, frequency) of each leaf below `node`, left subtrees first, where a
/// leaf's code is `prefix` followed by its path ('0' left, '1' right); a lone root leaf
/// gets the code "0". A node with a symbol counts as a leaf.
pub open spec fn leaf_codes(node: HuffmanNode, prefix: Seq<char>) -> Seq<(u8, Seq<char>, u64)>
    decreases node,
{
    match node.symbol {
        Some(s) => seq![
            (s, if prefix.len() == 0 {
                seq!['0']
            } else {
                prefix
            }, node.frequency),
        ],
        None => (match node.left {
            Some(c) => leaf_codes(*c, prefix.push('0')),
            None => Seq::empty(),
        }) + (match node.right {
            Some(c) => leaf_codes(*c, prefix.push('1')),
            None => Seq::empty(),
        }),
    }
}

/// The leaf codes below an optional child.
pub open spec fn child_codes(child: Option<Box<HuffmanNode>>, prefix: Seq<char>) -> Seq<(u8, Seq<char>, u64)> {
    match child {
        Some(c) => leaf_codes(*c, prefix),
        None => Seq::empty(),
    }
}

/// `base` with the code of each entry of `list` inserted in order (later entries win).
pub open spec fn insert_codes(base: Map<u8, Seq<char>>, list: Seq<(u8, Seq<char>, u64)>) -> Map<
    u8,
    Seq<char>,
>
    decreases list.len(),
{
    if list.len() == 0 {
        base
    } else {
        insert_codes(base, list.drop_last()).insert(list.last().0, list.last().1)
    }
}

/// The code table of a tree.
pub open spec fn code_table(root: HuffmanNode) -> Map<u8, Seq<char>> {
    insert_codes(Map::empty(), leaf_codes(root, Seq::empty()))
}

/// The characters of a map of strings.
pub open spec fn strings_view(m: Map<u8, String>) -> Map<u8, Seq<char>> {
    Map::new(|k: u8| m.contains_key(k), |k: u8| m[k]@)
}

/// `step` records the assignment of `entry` as step number `number`.
pub open spec fn is_code_step(step: AlgorithmStep, number: int, entry: (u8, Seq<char>, u64)) -> bool {
    &&& step.step_number == number
    &&& step.state matches StepState::HuffmanAssignCode { symbol, code, frequency } && symbol
        == entry.0 && code@ == entry.1 && frequency == entry.2
}

pub proof fn lemma_insert_codes_append(
    base: Map<u8, Seq<char>>,
    a: Seq<(u8, Seq<char>, u64)>,
    b: Seq<(u8, Seq<char>, u64)>,
)
    ensures
        insert_codes(base, a + b) == insert_codes(insert_codes(base, a), b),
    decreases b.len(),
{
    if b.len() == 0 {
        assert(a + b =~= a);
    } else {
        lemma_insert_codes_append(base, a, b.drop_last());
        assert((a + b).drop_last() =~= a + b.drop_last());
        assert((a + b).last() == b.last());
    }
}

/// The byte `b`, then the bytes of `data` that have a code.
pub open spec fn coded_bytes(data: Seq<u8>, codes: Map<u8, Seq<char>>) -> Seq<u8>
    decreases data.len(),
{
    if data.len() == 0 {
        Seq::empty()
    } else if codes.contains_key(data.last()) {
        coded_bytes(data.drop_last(), codes).push(data.last())
    } else {
        coded_bytes(data.drop_last(), codes)
    }
}

/// The codes of `data`'s bytes, concatenated; bytes without a code are skipped.
pub open spec fn encoded_chars(data: Seq<u8>, codes: Map<u8, Seq<char>>) -> Seq<char>
    decreases data.len(),
{
    if data.len() == 0 {
        Seq::empty()
    } else if codes.contains_key(data.last()) {
        encoded_chars(data.drop_last(), codes) + codes[data.last()]
    } else {
        encoded_chars(data.drop_last(), codes)
    }
}

/// The number of UTF-8 bytes of the codes of `data`'s bytes.
pub open spec fn encoded_len(data: Seq<u8>, codes: Map<u8, Seq<char>>) -> nat
    decreases data.len(),
{
    if data.len() == 0 {
        0
    } else if codes.contains_key(data.last()) {
        encoded_len(data.drop_last(), codes) + vstd::utf8::encode_utf8(codes[data.last()]).len()
    } else {
        encoded_len(data.drop_last(), codes)
    }
}

/// The bits that a code's characters stand for: '1' is a one bit, every other character a zero.
pub open spec fn char_bits(chars: Seq<char>) -> Seq<bool> {
    chars.map_values(|c: char| c == '1')
}

/// `step` records the encoding of the `k`-th coded byte of `data`.
pub open spec fn is_encode_step(step: AlgorithmStep, k: int, data: Seq<u8>, codes: Map<u8, Seq<char>>) -> bool {
    let coded = coded_bytes(data, codes);
    &&& step.step_number == k + 1
    &&& step.state matches StepState::BitstreamWrite { symbol, bits, total_bits } && symbol
        == coded[k] && bits@ == codes[coded[k]] && total_bits == encoded_len(coded.take(k + 1), codes)
}

/// `steps` records the frequency count of each distinct byte of `data`, in byte order.
pub open spec fn frequency_steps(data: Seq<u8>, steps: Seq<AlgorithmStep>) -> bool {
    &&& steps.len() == sorted_symbols(frequencies(data)).len()
    &&& forall|k: int|
        0 <= k < steps.len() ==> {
            let sym = sorted_symbols(frequencies(data))[k];
            &&& (#[trigger] steps[k]).step_number == k + 1
            &&& steps[k].state == StepState::FrequencyCount {
                symbol: sym,
                count: #[verifier::truncate] (byte_count(data, sym) as u64),
                total_symbols: data.len() as u64,
            }
        }
}

/// `steps` records each combining round of building the tree of `m`, numbered from `initial + 1`.
pub open spec fn build_steps(m: Map<u8, u64>, initial: int, steps: Seq<AlgorithmStep>) -> bool {
    &&& steps.len() == merge_trace(leaves(m)).len()
    &&& forall|k: int|
        0 <= k < steps.len() ==> {
            let (a, b) = merge_trace(leaves(m))[k];
            &&& (#[trigger] steps[k]).step_number == initial + k + 1
            &&& steps[k].state == combine_state(a, b)
        }
}

/// `steps` records each code assignment of the tree, numbered from `initial + 1`.
pub open spec fn code_steps(root: HuffmanNode, initial: int, steps: Seq<AlgorithmStep>) -> bool {
    &&& steps.len() == leaf_codes(root, Seq::empty()).len()
    &&& forall|k: int|
        0 <= k < steps.len() ==> is_code_step(
            #[trigger] steps[k],
            initial + k + 1,
            leaf_codes(root, Seq::empty())[k],
        )
}

/// `steps` records the encoding of each of the first 100 coded bytes of `data`.
pub open spec fn encode_steps(data: Seq<u8>, codes: Map<u8, Seq<char>>, steps: Seq<AlgorithmStep>) -> bool {
    &&& steps.len() == if coded_bytes(data, codes).len() < 100 {
        coded_bytes(data, codes).len()
    } else {
        100
    }
    &&& forall|k: int| 0 <= k < steps.len() ==> is_encode_step(#[trigger] steps[k], k, data, codes)
}

/// The node reached from `cur` by one bit; a missing child leads back to the root.
pub open spec fn decode_next(root: HuffmanNode, cur: HuffmanNode, bit: bool) -> HuffmanNode {
    if !bit {
        match cur.left {
            Some(c) => *c,
            None => root,
        }
    } else {
        match cur.right {
            Some(c) => *c,
            None => root,
        }
    }
}

/// The symbols decoded by walking the tree from `cur` along `bits`: each node reached that
/// has a symbol emits it, and the walk restarts at the root.
pub open spec fn decode_walk(root: HuffmanNode, cur: HuffmanNode, bits: Seq<bool>) -> Seq<u8>
    decreases bits.len(),
{
    if bits.len() == 0 {
        Seq::empty()
    } else {
        let n = decode_next(root, cur, bits[0]);
        match n.symbol {
            Some(s) => seq![s] + decode_walk(root, root, bits.skip(1)),
            None => decode_walk(root, n, bits.skip(1)),
        }
    }
}

/// The symbols decoded from the first `total_bits` bits of `encoded`.
pub open spec fn decode_bits(encoded: Seq<u8>, total_bits: nat, root: HuffmanNode) -> Seq<u8> {
    let bits = bytes_to_bits(encoded);
    decode_walk(root, root, bits.take(if total_bits < bits.len() { total_bits as int } else { bits.len() as int }))
}

/// A byte occurs exactly when its count is positive, and no count exceeds the length.
pub proof fn lemma_byte_count(data: Seq<u8>, b: u8)
    ensures
        byte_count(data, b) > 0 <==> data.contains(b),
        byte_count(data, b) <= data.len(),
    decreases data.len(),
{
    if data.len() > 0 {
        lemma_byte_count(data.drop_last(), b);
        if data.last() == b {
            assert(data[data.len() - 1] == b);
        }
        if data.drop_last().contains(b) {
            let i = choose|i: int| 0 <= i < data.drop_last().len() && data.drop_last()[i] == b;
            assert(data[i] == b);
        }
        if data.contains(b) && data.last() != b {
            let i = choose|i: int| 0 <= i < data.len() && data[i] == b;
            assert(data.drop_last()[i] == b);
        }
    }
}

impl HuffmanNode {
    /// Get the minimum symbol in a subtree (for deterministic ordering).
    fn min_symbol(node: &HuffmanNode) -> (s: u8)
        ensures
            s == min_symbol(*node),
        decreases node,
    {
        if let Some(s) = node.symbol {
            return s;
        }
        let left_min = match &node.left {
            Some(n) => Self::min_symbol(n),
            None => 255,
        };
        let right_min = match &node.right {
            Some(n) => Self::min_symbol(n),
            None => 255,
        };
        if left_min <= right_min {
            left_min
        } else {
            right_min
        }
    }

    /// Whether `a` is combined before `b`: it has a lower frequency, or an equal one and a
    /// lower least symbol.
    pub(crate) fn precedes(a: &HuffmanNode, b: &HuffmanNode) -> (r: bool)
        ensures
            r == precedes(*a, *b),
    {
        a.frequency < b.frequency || (a.frequency == b.frequency && Self::min_symbol(a)
            < Self::min_symbol(b))
    }
}

/// The index of the node to take next from a non-empty forest.
fn find_min_index(forest: &Vec<HuffmanNode>) -> (i: usize)
    requires
        forest@.len() >= 1,
    ensures
        i == min_index(forest@),
        i < forest@.len(),
{
    let mut best: usize = 0;
    let mut best_freq = forest[0].frequency;
    let mut best_min = HuffmanNode::min_symbol(&forest[0]);
    let mut k: usize = 1;
    while k < forest.len()
        invariant
            1 <= k <= forest@.len(),
            best == min_index_below(forest@, k as int),
            best < k,
            best_freq == forest@[best as int].frequency,
            best_min == min_symbol(forest@[best as int]),
        decreases forest.len() - k,
    {
        let f = forest[k].frequency;
        let m = HuffmanNode::min_symbol(&forest[k]);
        if f < best_freq || (f == best_freq && m < best_min) {
            best = k;
            best_freq = f;
            best_min = m;
        }
        k += 1;
    }
    best
}

impl HuffmanCoder {
    pub fn new(layer: u8) -> (c: Self)
        ensures
            c.layer == layer,
    {
        Self { layer }
    }

    /// Helper: convert a HuffmanNode to a StepState for visualization.
    fn node_to_step_state(node: &HuffmanNode) -> (s: StepState)
        ensures
            s == node_state(*node),
        decreases node,
    {
        let left_child = match &node.left {
            Some(n) => Some(Box::new(Self::node_to_step_state(n))),
            None => None,
        };
        let right_child = match &node.right {
            Some(n) => Some(Box::new(Self::node_to_step_state(n))),
            None => None,
        };
        StepState::HuffmanBuildNode {
            symbol: node.symbol,
            frequency: node.frequency,
            is_leaf: node.symbol.is_some(),
            left_child,
            right_child,
        }
    }

    /// Build a Huffman tree from frequency data, recording steps.
    pub fn build_tree(freq_map: &HashMap<u8, u64>, initial_step: usize) -> (r: (
        Option<HuffmanNode>,
        Vec<AlgorithmStep>,
    ))
        requires
            forest_total(leaves(freq_map@)) <= u64::MAX,
            initial_step + merge_trace(leaves(freq_map@)).len() <= usize::MAX,
        ensures
            r.0 == huffman_tree(freq_map@),
            build_steps(freq_map@, initial_step as int, r.1@),
    {
        let ghost m = freq_map@;
        let mut steps: Vec<AlgorithmStep> = Vec::new();
        let mut forest: Vec<HuffmanNode> = Vec::new();
        let mut s: u16 = 0;
        while s < 256
            invariant
                s <= 256,
                m == freq_map@,
                forest@ == symbols_below(m.dom(), s as int).map_values(|x: u8| leaf(x, m[x])),
            decreases 256 - s,
        {
            let ghost before = forest@;
            match freq_map.get(&(s as u8)) {
                Some(f) => {
                    forest.push(HuffmanNode { frequency: *f, symbol: Some(s as u8), left: None, right: None });
                    assert(forest@ =~= symbols_below(m.dom(), s + 1).map_values(|x: u8| leaf(x, m[x])));
                },
                None => {
                    assert(forest@ =~= symbols_below(m.dom(), s + 1).map_values(|x: u8| leaf(x, m[x])));
                },
            }
            s += 1;
        }
        let ghost f0 = forest@;
        assert(f0 == leaves(m));
        let mut step_number = initial_step;
        let ghost mut done: Seq<(HuffmanNode, HuffmanNode)> = Seq::empty();
        while forest.len() > 1
            invariant
                m == freq_map@,
                f0 == leaves(m),
                forest_total(forest@) == forest_total(f0),
                forest_total(f0) <= u64::MAX,
                huffman_reduce(forest@) == huffman_reduce(f0),
                done + merge_trace(forest@) == merge_trace(f0),
                initial_step + merge_trace(f0).len() <= usize::MAX,
                step_number == initial_step + done.len(),
                steps@.len() == done.len(),
                forall|k: int|
                    0 <= k < steps@.len() ==> {
                        &&& (#[trigger] steps@[k]).step_number == initial_step + k + 1
                        &&& steps@[k].state == combine_state(done[k].0, done[k].1)
                    },
            decreases forest@.len(),
        {
            let ghost f = forest@;
            let i = find_min_index(&forest);
            let left = forest.remove(i);
            let j = find_min_index(&forest);
            let right = forest.remove(j);
            proof {
                lemma_forest_total_remove(f, i as int);
                lemma_forest_total_remove(f.remove(i as int), j as int);
                lemma_forest_total_bounds(f, i as int);
                lemma_forest_total_nonneg(f.remove(i as int).remove(j as int));
                lemma_forest_total_bounds(f.remove(i as int), j as int);
            }
            let combined_freq = left.frequency + right.frequency;
            step_number += 1;
            let left_state = Self::node_to_step_state(&left);
            let right_state = Self::node_to_step_state(&right);
            steps.push(
                AlgorithmStep {
                    step_number,
                    state: StepState::HuffmanBuildNode {
                        symbol: None,
                        frequency: combined_freq,
                        is_leaf: false,
                        left_child: Some(Box::new(left_state)),
                        right_child: Some(Box::new(right_state)),
                    },
                },
            );
            let parent = HuffmanNode {
                frequency: combined_freq,
                symbol: None,
                left: Some(Box::new(left)),
                right: Some(Box::new(right)),
            };
            forest.push(parent);
            proof {
                lemma_forest_total_push(f.remove(i as int).remove(j as int), parent);
                assert(forest@ == merge_step(f));
                assert(merge_trace(f) == seq![taken_pair(f)] + merge_trace(merge_step(f)));
                done = done.push(taken_pair(f));
                assert(done + merge_trace(forest@) =~= merge_trace(f0));
            }
        }
        proof {
            assert(merge_trace(forest@) =~= Seq::<(HuffmanNode, HuffmanNode)>::empty());
            assert(done =~= merge_trace(f0));
        }
        let root = forest.pop();
        (root, steps)
    }

    /// Count byte frequencies in the input data, recording one step per distinct byte in
    /// increasing byte order.
    pub fn count_frequencies(data: &[u8]) -> (r: (HashMap<u8, u64>, Vec<AlgorithmStep>))
        ensures
            r.0@ == frequencies(data@),
            frequency_steps(data@, r.1@),
    {
        let counts = byte_counts(data);
        let ghost m = frequencies(data@);
        let total = data.len() as u64;
        let mut freq_map: HashMap<u8, u64> = HashMap::new();
        let mut steps: Vec<AlgorithmStep> = Vec::new();
        let mut s: u16 = 0;
        while s < 256
            invariant
                s <= 256,
                m == frequencies(data@),
                total == data@.len(),
                counts@.len() == 256,
                forall|x: int| 0 <= x < 256 ==> #[trigger] counts@[x] == byte_count(data@, x as u8),
                freq_map@ == m.restrict(Set::new(|x: u8| x < s)),
                steps@.len() == symbols_below(m.dom(), s as int).len(),
                forall|k: int|
                    0 <= k < steps@.len() ==> {
                        let sym = symbols_below(m.dom(), s as int)[k];
                        &&& (#[trigger] steps@[k]).step_number == k + 1
                        &&& steps@[k].state == StepState::FrequencyCount {
                            symbol: sym,
                            count: #[verifier::truncate] (byte_count(data@, sym) as u64),
                            total_symbols: data@.len() as u64,
                        }
                    },
            decreases 256 - s,
        {
            let sym = s as u8;
            let count = counts[s as usize];
            proof {
                lemma_symbols_below(m.dom(), s as int);
                lemma_byte_count(data@, sym);
                assert(counts@[s as int] == byte_count(data@, sym));
            }
            if count > 0 {
                freq_map.insert(sym, count);
                steps.push(
                    AlgorithmStep {
                        step_number: steps.len() + 1,
                        state: StepState::FrequencyCount { symbol: sym, count, total_symbols: total },
                    },
                );
                proof {
                    assert(m.contains_key(sym));
                    assert(symbols_below(m.dom(), s + 1) == symbols_below(m.dom(), s as int).push(sym));
                }
            } else {
                proof {
                    assert(!m.contains_key(sym));
                }
            }
            s += 1;
            assert(freq_map@ =~= m.restrict(Set::new(|x: u8| x < s)));
        }
        assert(freq_map@ =~= m);
        (freq_map, steps)
    }

    /// Generate prefix codes from the Huffman tree.
    pub fn generate_codes(root: &HuffmanNode, initial_step: usize) -> (r: (
        HashMap<u8, String>,
        Vec<AlgorithmStep>,
    ))
        requires
            initial_step + leaf_codes(*root, Seq::empty()).len() <= usize::MAX,
        ensures
            strings_view(r.0@) == code_table(*root),
            code_steps(*root, initial_step as int, r.1@),
    {
        let mut codes: HashMap<u8, String> = HashMap::new();
        let mut steps: Vec<AlgorithmStep> = Vec::new();
        let mut step_number = initial_step;
        assert(strings_view(codes@) =~= Map::<u8, Seq<char>>::empty());
        let empty = String::new();
        assert(empty@ == Seq::<char>::empty());
        Self::generate_codes_recursive(root, empty, &mut codes, &mut steps, &mut step_number);
        proof {
            assert forall|k: int| 0 <= k < steps@.len() implies is_code_step(
                #[trigger] steps@[k],
                initial_step + k + 1,
                leaf_codes(*root, Seq::empty())[k],
            ) by {
                assert(steps@[0 + k] == steps@[k]);
            }
        }
        (codes, steps)
    }

    fn generate_codes_recursive(
        node: &HuffmanNode,
        prefix: String,
        codes: &mut HashMap<u8, String>,
        steps: &mut Vec<AlgorithmStep>,
        step_number: &mut usize,
    )
        requires
            *old(step_number) + leaf_codes(*node, prefix@).len() <= usize::MAX,
        ensures
            strings_view(final(codes)@) == insert_codes(strings_view(old(codes)@), leaf_codes(*node, prefix@)),
            *final(step_number) == *old(step_number) + leaf_codes(*node, prefix@).len(),
            final(steps)@.len() == old(steps)@.len() + leaf_codes(*node, prefix@).len(),
            forall|i: int| 0 <= i < old(steps)@.len() ==> final(steps)@[i] == old(steps)@[i],
            forall|k: int|
                0 <= k < leaf_codes(*node, prefix@).len() ==> is_code_step(
                    #[trigger] final(steps)@[old(steps)@.len() + k],
                    *old(step_number) + k + 1,
                    leaf_codes(*node, prefix@)[k],
                ),
        decreases node,
    {
        let ghost list = leaf_codes(*node, prefix@);
        if let Some(symbol) = node.symbol {
            let code = if prefix.as_str().is_empty() {
                proof {
                    reveal_strlit("0");
                }
                "0".to_owned()
            } else {
                prefix
            };
            let ghost before = codes@;
            let code_copy = code.clone();
            codes.insert(symbol, code_copy);
            *step_number += 1;
            steps.push(
                AlgorithmStep {
                    step_number: *step_number,
                    state: StepState::HuffmanAssignCode { symbol, code, frequency: node.frequency },
                },
            );
            proof {
                assert(list.drop_last() =~= Seq::<(u8, Seq<char>, u64)>::empty());
                assert(code@ == list[0].1);
                assert(codes@ == before.insert(symbol, code_copy));
                assert(strings_view(codes@) =~= strings_view(before).insert(symbol, list[0].1));
                assert(insert_codes(strings_view(before), list) == insert_codes(
                    strings_view(before),
                    list.drop_last(),
                ).insert(list[0].0, list[0].1));
            }
            return;
        }
        let ghost left_list = child_codes(node.left, prefix@.push('0'));
        let ghost right_list = child_codes(node.right, prefix@.push('1'));
        assert(list == left_list + right_list);
        let ghost codes0 = strings_view(codes@);
        let ghost steps0 = steps@;
        let ghost n0 = *step_number;
        if let Some(left) = &node.left {
            let mut p = prefix.clone();
            proof {
                reveal_strlit("0");
            }
            p.append("0");
            assert(p@ =~= prefix@.push('0'));
            Self::generate_codes_recursive(left, p, codes, steps, step_number);
        }
        let ghost codes1 = strings_view(codes@);
        let ghost steps1 = steps@;
        assert(codes1 == insert_codes(codes0, left_list));
        assert(steps1.len() == steps0.len() + left_list.len());
        assert(*step_number == n0 + left_list.len());
        if let Some(right) = &node.right {
            let mut p = prefix.clone();
            proof {
                reveal_strlit("1");
            }
            p.append("1");
            assert(p@ =~= prefix@.push('1'));
            Self::generate_codes_recursive(right, p, codes, steps, step_number);
        }
        proof {
            lemma_insert_codes_append(codes0, left_list, right_list);
            assert forall|k: int| 0 <= k < list.len() implies is_code_step(
                #[trigger] steps@[steps0.len() + k],
                n0 + k + 1,
                list[k],
            ) by {
                if k < left_list.len() {
                    assert(steps@[steps0.len() + k] == steps1[steps0.len() + k]);
                    assert(list[k] == left_list[k]);
                } else {
                    assert(list[k] == right_list[k - left_list.len()]);
                    assert(steps@[steps0.len() + k] == steps@[steps1.len() + (k - left_list.len())]);
                }
            }
        }
    }

    /// Encode data using the given codes; bytes without a code are skipped. Returns the
    /// packed bits (most significant first, zero padded), the UTF-8 length of the
    /// concatenated codes, and a step for each of the first 100 coded bytes.
    pub fn encode_data(data: &[u8], codes: &HashMap<u8, String>) -> (r: (Vec<u8>, usize, Vec<AlgorithmStep>))
        requires
            encoded_len(data@, strings_view(codes@)) <= usize::MAX,
        ensures
            bytes_to_bits(r.0@) == pad_to_bytes(char_bits(encoded_chars(data@, strings_view(codes@)))),
            r.0@.len() == (encoded_chars(data@, strings_view(codes@)).len() + 7) / 8,
            r.1 == encoded_len(data@, strings_view(codes@)),
            encode_steps(data@, strings_view(codes@), r.2@),
    {
        let ghost cv = strings_view(codes@);
        let mut writer = BitstreamWriter::new();
        let mut steps: Vec<AlgorithmStep> = Vec::new();
        let mut step_number: usize = 0;
        let mut total_bits: usize = 0;
        let mut i: usize = 0;
        while i < data.len()
            invariant
                cv == strings_view(codes@),
                encoded_len(data@, cv) <= usize::MAX,
                i <= data@.len(),
                writer.wf(),
                writer@ == char_bits(encoded_chars(data@.take(i as int), cv)),
                total_bits == encoded_len(data@.take(i as int), cv),
                step_number == coded_bytes(data@.take(i as int), cv).len(),
                coded_bytes(data@.take(i as int), cv) == coded_bytes(data@, cv).take(step_number as int),
                step_number <= i,
                steps@.len() == if step_number < 100 { step_number as int } else { 100 },
                forall|k: int| 0 <= k < steps@.len() ==> is_encode_step(#[trigger] steps@[k], k, data@, cv),
            decreases data.len() - i,
        {
            let byte = data[i];
            proof {
                lemma_coded_prefix(data@, cv, i + 1);
                lemma_encoded_len_prefix(data@, cv, i + 1);
                assert(data@.take(i + 1).drop_last() =~= data@.take(i as int));
                assert(data@.take(i + 1).last() == byte);
            }
            match codes.get(&byte) {
                Some(code) => {
                    let ghost base = writer@;
                    let ghost c = code@;
                    assert(cv.contains_key(byte) && cv[byte] == c);
                    assert(coded_bytes(data@.take(i + 1), cv) == coded_bytes(data@.take(i as int), cv).push(byte));
                    for ch in it: code.as_str().chars()
                        invariant
                            writer.wf(),
                            it.seq() == c,
                            writer@ == base + char_bits(c.take(it.index())),
                    {
                        writer.write_bit(ch == '1');
                        assert(char_bits(c.take(it.index() + 1)) =~= char_bits(c.take(it.index())).push(ch == '1'));
                    }
                    proof {
                        assert(c.take(c.len() as int) =~= c);
                        assert(char_bits(encoded_chars(data@.take(i as int), cv) + c) =~= base
                            + char_bits(c));
                    }
                    total_bits += code.as_str().len();
                    step_number += 1;
                    if step_number <= 100 {
                        let bits = code.clone();
                        let step = AlgorithmStep {
                            step_number,
                            state: StepState::BitstreamWrite { symbol: byte, bits, total_bits },
                        };
                        proof {
                            let coded = coded_bytes(data@, cv);
                            let ct = coded_bytes(data@.take(i + 1), cv);
                            assert(ct.len() == step_number);
                            assert(ct[step_number - 1] == byte);
                            assert(ct == coded.take(step_number as int));
                            assert(coded.take(step_number as int)[step_number - 1] == coded[step_number - 1]);
                            assert(coded[step_number - 1] == byte);
                            assert(coded.take(step_number as int) =~= coded_bytes(data@.take(i + 1), cv));
                            lemma_encoded_len_coded(data@.take(i + 1), cv);
                            assert(total_bits == encoded_len(data@.take(i + 1), cv));
                            assert(is_encode_step(step, step_number - 1, data@, cv));
                        }
                        steps.push(step);
                    }
                },
                None => {
                    assert(!cv.contains_key(byte));
                },
            }
            i += 1;
        }
        assert(data@.take(data@.len() as int) =~= data@);
        proof {
            lemma_coded_prefix(data@, cv, data@.len() as int);
        }
        let ghost bits = writer@;
        let output = writer.into_bytes();
        assert(char_bits(encoded_chars(data@, cv)).len() == encoded_chars(data@, cv).len());
        (output, total_bits, steps)
    }

    /// Decode a Huffman-encoded bitstream back to original data.
    pub fn decode_data(encoded: &[u8], total_bits: usize, root: &HuffmanNode) -> (output: Vec<u8>)
        ensures
            output@ == decode_bits(encoded@, total_bits as nat, *root),
    {
        let ghost bits = bytes_to_bits(encoded@);
        let ghost limit: int = if total_bits < bits.len() { total_bits as int } else { bits.len() as int };
        let mut output: Vec<u8> = Vec::new();
        let mut current_node: &HuffmanNode = root;
        let mut bits_read: usize = 0;
        let mut i: usize = 0;
        assert(bits.take(limit).subrange(0, limit) =~= bits.take(limit));
        while i < encoded.len()
            invariant
                bits == bytes_to_bits(encoded@),
                limit == (if total_bits < bits.len() { total_bits as int } else { bits.len() as int }),
                i <= encoded@.len(),
                bits_read <= limit,
                bits_read == 8 * i || (bits_read == total_bits && total_bits <= 8 * i),
                output@ + decode_walk(*root, *current_node, bits.subrange(bits_read as int, limit))
                    == decode_walk(*root, *root, bits.take(limit)),
            decreases encoded.len() - i,
        {
            let byte = encoded[i];
            let mut j: u8 = 0;
            while j < 8 && bits_read < total_bits
                invariant
                    bits == bytes_to_bits(encoded@),
                    limit == (if total_bits < bits.len() { total_bits as int } else { bits.len() as int }),
                    i < encoded@.len(),
                    byte == encoded@[i as int],
                    j <= 8,
                    bits_read <= limit,
                    bits_read == 8 * i + j || (bits_read == total_bits && total_bits <= 8 * i + j),
                    output@ + decode_walk(*root, *current_node, bits.subrange(bits_read as int, limit))
                        == decode_walk(*root, *root, bits.take(limit)),
                decreases 8 - j,
            {
                let bit = (byte >> (7 - j)) & 1;
                proof {
                    assert((byte >> ((7 - j) as u8)) & 1u8 <= 1u8) by (bit_vector);
                    let k = 8 * i + j;
                    assert(bits_read == k);
                    assert(k / 8 == i as int);
                    assert(k % 8 == j as int);
                    assert(bits[k] == bit_of(byte, j as int));
                    assert(bit_of(byte, j as int) == (((byte >> ((7 - j) as u8)) & 1u8) == 1u8));
                    assert(bits_read < limit);
                    let rem = bits.subrange(bits_read as int, limit);
                    assert(rem[0] == (bit == 1));
                    assert(rem.skip(1) =~= bits.subrange(bits_read + 1, limit));
                }
                bits_read += 1;
                let ghost cur = *current_node;
                let ghost rem = bits.subrange(bits_read - 1, limit);
                let next: &HuffmanNode = if bit == 0 {
                    match &current_node.left {
                        Some(n) => &**n,
                        None => root,
                    }
                } else {
                    match &current_node.right {
                        Some(n) => &**n,
                        None => root,
                    }
                };
                proof {
                    assert(*next == decode_next(*root, cur, bit == 1));
                    assert(rem.len() > 0);
                    assert(decode_walk(*root, cur, rem) == match next.symbol {
                        Some(s) => seq![s] + decode_walk(*root, *root, rem.skip(1)),
                        None => decode_walk(*root, *next, rem.skip(1)),
                    });
                }
                match next.symbol {
                    Some(symbol) => {
                        let ghost before = output@;
                        output.push(symbol);
                        current_node = root;
                        assert(before.push(symbol) + decode_walk(*root, *root, bits.subrange(bits_read as int, limit))
                            =~= before + (seq![symbol] + decode_walk(*root, *root, bits.subrange(bits_read as int, limit))));
                    },
                    None => {
                        current_node = next;
                    },
                }
                j += 1;
            }
            i += 1;
        }
        proof {
            assert(bits_read == limit);
            assert(bits.subrange(limit, limit) =~= Seq::<bool>::empty());
            assert(output@ + Seq::<u8>::empty() =~= output@);
        }
        output
    }
}

/// The coded bytes of a prefix of `data` are a prefix of its coded bytes.
proof fn lemma_coded_prefix(data: Seq<u8>, codes: Map<u8, Seq<char>>, i: int)
    requires
        0 <= i <= data.len(),
    ensures
        coded_bytes(data.take(i), codes) == coded_bytes(data, codes).take(
            coded_bytes(data.take(i), codes).len() as int,
        ),
        coded_bytes(data.take(i), codes).len() <= i,
        coded_bytes(data, codes).len() <= data.len(),
        coded_bytes(data.take(i), codes).len() <= coded_bytes(data, codes).len(),
    decreases data.len(),
{
    if data.len() > 0 {
        lemma_coded_prefix(data.drop_last(), codes, data.len() - 1);
        assert(data.drop_last().take(data.len() - 1) =~= data.drop_last());
        if i == data.len() {
            assert(data.take(i) =~= data);
            assert(coded_bytes(data, codes).take(coded_bytes(data, codes).len() as int) =~= coded_bytes(data, codes));
        } else {
            lemma_coded_prefix(data.drop_last(), codes, i);
            assert(data.drop_last().take(i) =~= data.take(i));
            let a = coded_bytes(data.take(i), codes);
            let b = coded_bytes(data.drop_last(), codes);
            let c = coded_bytes(data, codes);
            assert(a == b.take(a.len() as int));
            assert(b == c.take(b.len() as int));
            assert(a =~= c.take(a.len() as int));
        }
    } else {
        assert(data.take(i) =~= data);
        assert(coded_bytes(data, codes).take(0) =~= coded_bytes(data, codes));
    }
}

/// Only coded bytes contribute to the encoded length.
proof fn lemma_encoded_len_coded(data: Seq<u8>, codes: Map<u8, Seq<char>>)
    ensures
        encoded_len(data, codes) == encoded_len(coded_bytes(data, codes), codes),
        encoded_chars(data, codes) == encoded_chars(coded_bytes(data, codes), codes),
    decreases data.len(),
{
    if data.len() > 0 {
        lemma_encoded_len_coded(data.drop_last(), codes);
        let cb = coded_bytes(data, codes);
        if codes.contains_key(data.last()) {
            assert(cb.drop_last() =~= coded_bytes(data.drop_last(), codes));
        }
    }
}

/// The encoded length of a prefix is at most that of the whole.
proof fn lemma_encoded_len_prefix(data: Seq<u8>, codes: Map<u8, Seq<char>>, i: int)
    requires
        0 <= i <= data.len(),
    ensures
        encoded_len(data.take(i), codes) <= encoded_len(data, codes),
    decreases data.len(),
{
    if data.len() > 0 {
        if i == data.len() {
            assert(data.take(i) =~= data);
        } else {
            lemma_encoded_len_prefix(data.drop_last(), codes, i);
            assert(data.drop_last().take(i) =~= data.take(i));
        }
    } else {
        assert(data.take(i) =~= data);
    }
}

/// The 2 little-endian bytes of `v`.
pub open spec fn u16_le_bytes(v: u16) -> Seq<u8> {
    seq![v as u8, (v >> 8u16) as u8]
}

/// The code table of `data`'s Huffman tree (empty for empty data).
pub open spec fn huffman_codes(data: Seq<u8>) -> Map<u8, Seq<char>> {
    match huffman_tree(frequencies(data)) {
        Some(t) => code_table(t),
        None => Map::empty(),
    }
}

/// One entry of the symbol table: the symbol, the UTF-8 length of its code (low 8 bits), and
/// its frequency (low 32 bits, little-endian).
pub open spec fn table_entry(s: u8, code: Seq<char>, freq: u64) -> Seq<u8> {
    seq![s, (vstd::utf8::encode_utf8(code).len() as usize) as u8] + u32_le_bytes(freq as u32)
}

/// The symbol table for the symbols `syms`, with frequencies from `m` (0 when missing).
pub open spec fn table_bytes(syms: Seq<u8>, codes: Map<u8, Seq<char>>, m: Map<u8, u64>) -> Seq<u8>
    decreases syms.len(),
{
    if syms.len() == 0 {
        Seq::empty()
    } else {
        table_bytes(syms.drop_last(), codes, m) + table_entry(
            syms.last(),
            codes[syms.last()],
            if m.contains_key(syms.last()) {
                m[syms.last()]
            } else {
                0
            },
        )
    }
}

/// The header of Huffman's compressed form of `data`: the encoded bit count (low 32 bits),
/// the number of codes (low 16 bits), and the symbol table in symbol order.
pub open spec fn huffman_header(data: Seq<u8>) -> Seq<u8> {
    let codes = huffman_codes(data);
    u32_le_bytes(encoded_len(data, codes) as u32) + u16_le_bytes(codes.dom().len() as u16)
        + table_bytes(symbols_below(codes.dom(), 256), codes, frequencies(data))
}

/// `out` is Huffman's compressed form of `data`: the header, then the code bits of `data`,
/// most significant first and zero padded.
pub open spec fn is_huffman_output(data: Seq<u8>, out: Seq<u8>) -> bool {
    let h = huffman_header(data);
    let chars = encoded_chars(data, huffman_codes(data));
    &&& out.len() == h.len() + (chars.len() + 7) / 8
    &&& out.take(h.len() as int) == h
    &&& bytes_to_bits(out.skip(h.len() as int)) == pad_to_bytes(char_bits(chars))
}

/// The bytes that Huffman coding makes of `data`.
pub open spec fn huffman_output(data: Seq<u8>) -> Seq<u8> {
    choose|out: Seq<u8>| is_huffman_output(data, out)
}

/// Huffman coding makes one sequence of bytes of each input.
pub proof fn lemma_huffman_output_unique(data: Seq<u8>, out: Seq<u8>)
    requires
        is_huffman_output(data, out),
    ensures
        out == huffman_output(data),
{
    let other = huffman_output(data);
    assert(is_huffman_output(data, other));
    let h = huffman_header(data);
    lemma_bytes_to_bits_injective(out.skip(h.len() as int), other.skip(h.len() as int));
    assert(out =~= out.take(h.len() as int) + out.skip(h.len() as int));
    assert(other =~= other.take(h.len() as int) + other.skip(h.len() as int));
}

/// `steps` records, in order, the frequency counts, the combining rounds, the code
/// assignments and the first encodings of compressing `data`.
pub open spec fn huffman_steps(data: Seq<u8>, steps: Seq<AlgorithmStep>) -> bool {
    let m = frequencies(data);
    let n1 = sorted_symbols(m).len() as int;
    match huffman_tree(m) {
        None => frequency_steps(data, steps),
        Some(t) => {
            let n2 = merge_trace(leaves(m)).len() as int;
            let n3 = leaf_codes(t, Seq::empty()).len() as int;
            &&& steps.len() >= n1 + n2 + n3
            &&& frequency_steps(data, steps.take(n1))
            &&& build_steps(m, n1, steps.subrange(n1, n1 + n2))
            &&& code_steps(t, n1 + n2, steps.subrange(n1 + n2, n1 + n2 + n3))
            &&& encode_steps(data, code_table(t), steps.skip(n1 + n2 + n3))
        },
    }
}

/// The symbol table read from `data` at `offset`: `count` entries of 6 bytes (symbol, code
/// length, 32-bit little-endian frequency) inserted into `m`, and the offset after them;
/// `None` when the data ends before the last entry.
pub open spec fn read_table(data: Seq<u8>, offset: int, count: nat, m: Map<u8, u64>) -> Option<
    (Map<u8, u64>, int),
>
    decreases count,
{
    if count == 0 {
        Some((m, offset))
    } else if offset + 6 > data.len() {
        None
    } else {
        read_table(data, offset + 6, (count - 1) as nat, m.insert(data[offset], le_u32(data, offset + 2) as u64))
    }
}

/// What decompressing `data` gives: the decoded bytes, or an error message.
pub open spec fn huffman_decompressed(data: Seq<u8>) -> Result<Seq<u8>, Seq<char>> {
    if data.len() < 6 || le_u32(data, 0) == 0 {
        Ok(Seq::empty())
    } else {
        match read_table(data, 6, le_u16(data, 4) as nat, Map::empty()) {
            None => Err("Truncated symbol table"@),
            Some((m, offset)) => match huffman_tree(m) {
                None => Err("Failed to rebuild Huffman tree"@),
                Some(t) => Ok(decode_bits(data.skip(offset), le_u32(data, 0) as nat, t)),
            },
        }
    }
}

impl HuffmanCoder {
    /// The inputs whose encoded length fits a `usize`.
    pub open spec fn accepts(data: Seq<u8>) -> bool {
        encoded_len(data, huffman_codes(data)) <= usize::MAX
    }

    /// `data`, `metadata` and `steps` are what `compress` reports for `input`: the header and
    /// encoded bits, the code and frequency tables, and the steps of building the code.
    pub open spec fn compressed_as(
        &self,
        input: Seq<u8>,
        data: Seq<u8>,
        metadata: Metadata,
        steps: Seq<AlgorithmStep>,
    ) -> bool {
        &&& is_huffman_output(input, data)
        &&& huffman_steps(input, steps)
        &&& metadata matches Metadata::Huffman {
            layer,
            code_table,
            frequency_table,
            total_bits,
            unique_symbols,
        } && {
            let codes = huffman_codes(input);
            let syms = symbols_below(codes.dom(), 256);
            let m = frequencies(input);
            &&& layer == self.layer
            &&& total_bits == encoded_len(input, codes)
            &&& unique_symbols == m.dom().len()
            &&& code_table@.len() == syms.len()
            &&& forall|i: int|
                0 <= i < syms.len() ==> (#[trigger] code_table@[i]).0 == syms[i]
                    && code_table@[i].1@ == codes[syms[i]]
            &&& frequency_table@ == sorted_symbols(m).map_values(|x: u8| (x, m[x]))
        }
    }

    /// Full compression pipeline: frequency count, tree, codes, encoding.
    fn full_compress(&self, data: &[u8]) -> (r: (Vec<u8>, usize, HashMap<u8, String>, HashMap<u8, u64>, Vec<AlgorithmStep>))
        requires
            Self::accepts(data@),
        ensures
            r.3@ == frequencies(data@),
            strings_view(r.2@) == huffman_codes(data@),
            r.1 == encoded_len(data@, huffman_codes(data@)),
            bytes_to_bits(r.0@) == pad_to_bytes(char_bits(encoded_chars(data@, huffman_codes(data@)))),
            r.0@.len() == (encoded_chars(data@, huffman_codes(data@)).len() + 7) / 8,
            huffman_steps(data@, r.4@),
    {
        let mut all_steps: Vec<AlgorithmStep> = Vec::new();
        let data_len = data.len();
        let (freq_map, mut freq_steps) = Self::count_frequencies(data);
        all_steps.append(&mut freq_steps);
        let ghost m = freq_map@;
        proof {
            lemma_leaves(m);
            lemma_total_frequencies(data@);
        }
        if freq_map.is_empty() {
            proof {
                assert(m.dom() =~= Set::<u8>::empty());
                assert(leaves(m) =~= Seq::<HuffmanNode>::empty());
                assert(huffman_codes(data@) =~= Map::<u8, Seq<char>>::empty());
                lemma_encoded_empty_codes(data@);
                assert(pad_to_bytes(Seq::<bool>::empty()) =~= Seq::<bool>::empty());
                assert(bytes_to_bits(Seq::<u8>::empty()) =~= Seq::<bool>::empty());
            }
            let empty_codes: HashMap<u8, String> = HashMap::new();
            assert(strings_view(empty_codes@) =~= Map::<u8, Seq<char>>::empty());
            return (Vec::new(), 0, empty_codes, freq_map, all_steps);
        }
        proof {
            lemma_reduce(leaves(m));
        }
        let step_offset = all_steps.len();
        let (tree_opt, mut tree_steps) = Self::build_tree(&freq_map, step_offset);
        all_steps.append(&mut tree_steps);
        let root = match tree_opt {
            Some(root) => root,
            None => {
                return (Vec::new(), 0, HashMap::new(), freq_map, all_steps);
            },
        };
        proof {
            lemma_leaf_codes_len(root, Seq::empty());
        }
        let step_offset = all_steps.len();
        let (codes, mut code_steps) = Self::generate_codes(&root, step_offset);
        all_steps.append(&mut code_steps);
        let (encoded, total_bits, mut encode_steps) = Self::encode_data(data, &codes);
        let ghost before = all_steps@;
        let ghost enc = encode_steps@;
        all_steps.append(&mut encode_steps);
        proof {
            let n1 = sorted_symbols(m).len() as int;
            let n2 = merge_trace(leaves(m)).len() as int;
            let n3 = leaf_codes(root, Seq::empty()).len() as int;
            assert(all_steps@.take(n1) =~= before.take(n1));
            assert(all_steps@.subrange(n1, n1 + n2) =~= before.subrange(n1, n1 + n2));
            assert(all_steps@.subrange(n1 + n2, n1 + n2 + n3) =~= before.subrange(n1 + n2, n1 + n2 + n3));
            assert(before.len() == n1 + n2 + n3);
            assert(all_steps@.skip(n1 + n2 + n3) =~= enc);
        }
        (encoded, total_bits, codes, freq_map, all_steps)
    }
}

/// Without codes nothing is encoded.
pub proof fn lemma_encoded_empty_codes(data: Seq<u8>)
    ensures
        encoded_len(data, Map::empty()) == 0,
        encoded_chars(data, Map::empty()) =~= Seq::<char>::empty(),
        coded_bytes(data, Map::empty()) =~= Seq::<u8>::empty(),
    decreases data.len(),
{
    if data.len() > 0 {
        lemma_encoded_empty_codes(data.drop_last());
    }
}

/// Appends the 4 little-endian bytes of `v`.
fn push_u32_le(out: &mut Vec<u8>, v: u32)
    ensures
        final(out)@ == old(out)@ + u32_le_bytes(v),
{
    out.push(v as u8);
    out.push((v >> 8) as u8);
    out.push((v >> 16) as u8);
    out.push((v >> 24) as u8);
    assert(out@ =~= old(out)@ + u32_le_bytes(v));
}

impl CompressionAlgorithm for HuffmanCoder {
    open spec fn compress_accepts(&self, input: Seq<u8>) -> bool {
        Self::accepts(input)
    }

    open spec fn decompress_accepts(&self, data: Seq<u8>) -> bool {
        true
    }

    fn compress(&self, input: &[u8]) -> (r: CompressionResult)
        ensures
            self.compressed_as(input@, r.compressed_data.data@, r.compressed_data.metadata, r.steps@),
    {
        let (encoded, total_bits, codes, freq_map, steps) = self.full_compress(input);
        let ghost cv = strings_view(codes@);
        let ghost m = freq_map@;
        let mut output: Vec<u8> = Vec::new();
        push_u32_le(&mut output, total_bits as u32);
        let num_symbols = codes.len() as u16;
        output.push(num_symbols as u8);
        output.push((num_symbols >> 8) as u8);
        let ghost header0 = output@;
        proof {
            assert(codes@.dom() =~= cv.dom());
            assert(header0 =~= u32_le_bytes(total_bits as u32) + u16_le_bytes(cv.dom().len() as u16));
        }
        let mut code_table: Vec<(u8, String)> = Vec::new();
        let mut frequency_table: Vec<(u8, u64)> = Vec::new();
        let mut s: u16 = 0;
        while s < 256
            invariant
                s <= 256,
                cv == strings_view(codes@),
                m == freq_map@,
                output@ == header0 + table_bytes(symbols_below(cv.dom(), s as int), cv, m),
                code_table@.len() == symbols_below(cv.dom(), s as int).len(),
                forall|i: int|
                    0 <= i < code_table@.len() ==> (#[trigger] code_table@[i]).0 == symbols_below(
                        cv.dom(),
                        s as int,
                    )[i] && code_table@[i].1@ == cv[symbols_below(cv.dom(), s as int)[i]],
                frequency_table@ == symbols_below(m.dom(), s as int).map_values(|x: u8| (x, m[x])),
            decreases 256 - s,
        {
            let sym = s as u8;
            let ghost syms = symbols_below(cv.dom(), s as int);
            match codes.get(&sym) {
                Some(code) => {
                    let ghost before = output@;
                    output.push(sym);
                    output.push(code.as_str().len() as u8);
                    let freq: u64 = match freq_map.get(&sym) {
                        Some(f) => *f,
                        None => 0,
                    };
                    push_u32_le(&mut output, freq as u32);
                    code_table.push((sym, code.clone()));
                    proof {
                        assert(cv.contains_key(sym));
                        assert(symbols_below(cv.dom(), s + 1) == syms.push(sym));
                        assert(syms.push(sym).drop_last() =~= syms);
                        assert(output@ =~= before + table_entry(sym, cv[sym], freq));
                        assert(output@ =~= header0 + table_bytes(symbols_below(cv.dom(), s + 1), cv, m));
                    }
                },
                None => {
                    assert(!cv.contains_key(sym));
                },
            }
            match freq_map.get(&sym) {
                Some(f) => {
                    frequency_table.push((sym, *f));
                    assert(frequency_table@ =~= symbols_below(m.dom(), s + 1).map_values(|x: u8| (x, m[x])));
                },
                None => {
                    assert(frequency_table@ =~= symbols_below(m.dom(), s + 1).map_values(|x: u8| (x, m[x])));
                },
            }
            s += 1;
        }
        let ghost header = output@;
        crate::bytes::extend_from(&mut output, encoded.as_slice());
        proof {
            assert(header == huffman_header(input@));
            assert(output@.take(header.len() as int) =~= header);
            assert(output@.skip(header.len() as int) =~= encoded@);
        }
        let unique_symbols = freq_map.len();
        let original_size = input.len();
        let compressed_size = output.len();
        CompressionResult {
            original_size,
            compressed_size,
            compressed_data: CompressedData {
                data: output,
                metadata: Metadata::Huffman {
                    layer: self.layer,
                    code_table,
                    frequency_table,
                    total_bits,
                    unique_symbols,
                },
            },
            steps,
        }
    }

    fn decompress(&self, compressed: &CompressedData) -> (r: Result<Vec<u8>, String>)
        ensures
            match huffman_decompressed(compressed.data@) {
                Ok(v) => r matches Ok(x) && x@ == v,
                Err(msg) => r matches Err(e) && e@ == msg,
            },
    {
        let data = compressed.data.as_slice();
        if data.len() < 6 {
            return Ok(Vec::new());
        }
        let total_bits = (data[0] as u32 | ((data[1] as u32) << 8) | ((data[2] as u32) << 16) | ((
        data[3] as u32) << 24)) as usize;
        assert(total_bits == le_u32(data@, 0));
        if total_bits == 0 {
            return Ok(Vec::new());
        }
        let num_symbols = (data[4] as u16 | ((data[5] as u16) << 8)) as usize;
        let ghost count = le_u16(data@, 4) as nat;
        let mut freq_map: HashMap<u8, u64> = HashMap::new();
        let mut offset: usize = 6;
        let mut k: usize = 0;
        assert(freq_map@ =~= Map::<u8, u64>::empty());
        while k < num_symbols
            invariant
                num_symbols == count,
                count == le_u16(data@, 4) as nat,
                data@.len() >= 6,
                le_u32(data@, 0) != 0,
                data@ == compressed.data@,
                k <= num_symbols,
                offset == 6 + 6 * k,
                offset <= data@.len() || k == 0,
                forall|x: u8| #[trigger] freq_map@.contains_key(x) ==> freq_map@[x] <= u32::MAX,
                read_table(data@, 6, count, Map::empty()) == read_table(
                    data@,
                    offset as int,
                    (count - k) as nat,
                    freq_map@,
                ),
            decreases num_symbols - k,
        {
            if offset >= data.len() || data.len() - offset <= 5 {
                proof {
                    assert(offset + 6 > data@.len());
                    assert(read_table(data@, offset as int, (count - k) as nat, freq_map@) is None);
                    assert(read_table(data@, 6, count, Map::empty()) is None);
                    assert(count == le_u16(data@, 4) as nat);
                    assert(huffman_decompressed(data@) == Err::<Seq<u8>, Seq<char>>("Truncated symbol table"@));
                }
                return Err("Truncated symbol table".to_owned());
            }
            let symbol = data[offset];
            let f = data[offset + 2] as u32 | ((data[offset + 3] as u32) << 8) | ((data[offset + 4] as u32)
                << 16) | ((data[offset + 5] as u32) << 24);
            let freq = f as u64;
            assert(f == le_u32(data@, offset + 2));
            freq_map.insert(symbol, freq);
            offset += 6;
            k += 1;
        }
        let encoded_bytes = crate::bytes::copy_range(data, offset, data.len());
        let encoded = encoded_bytes.as_slice();
        let ghost m = freq_map@;
        proof {
            lemma_total_bound(m, u32::MAX as int);
            lemma_leaves(m);
            if leaves(m).len() >= 1 {
                lemma_reduce(leaves(m));
            }
        }
        let (tree_opt, _) = Self::build_tree(&freq_map, 0);
        let root = match tree_opt {
            Some(root) => root,
            None => {
                return Err("Failed to rebuild Huffman tree".to_owned());
            },
        };
        assert(encoded@ == data@.skip(offset as int));
        Ok(Self::decode_data(encoded, total_bits, &root))
    }

    fn name(&self) -> (n: &str)
        ensures
            self.layer == 1 ==> n@ == "Huffman Encoding (Layer 1)"@,
            self.layer != 1 ==> n@ == "Huffman Encoding (Layer 2)"@,
    {
        if self.layer == 1 {
            "Huffman Encoding (Layer 1)"
        } else {
            "Huffman Encoding (Layer 2)"
        }
    }
}

impl Default for HuffmanCoder {
    fn default() -> (c: Self)
        ensures
            c.layer == 1,
    {
        Self { layer: 1 }
    }
}

} // verus!
