use vstd::prelude::*;

use super::huffman::{
    forest_total,
    byte_count, char_bits, code_table, decode_bits, decode_walk, encoded_chars, encoded_len,
    frequencies, huffman_codes, huffman_decompressed, huffman_header, huffman_tree,
    is_huffman_output, leaf_codes, leaves, lemma_byte_count, lemma_encoded_empty_codes,
    lemma_symbols_below, read_table, symbols_below, table_bytes, table_entry, u16_le_bytes,
    HuffmanCoder, HuffmanNode,
};
use super::{AlgorithmStep, Metadata};
use super::huffman_codes::{
    is_prefix_of, lemma_code_syms, lemma_codes_binary, lemma_decode_data, lemma_insert_codes_last,
    lemma_prefix_free, last_index, list_syms,
};
use super::huffman_tree::{lemma_leaves, lemma_reduce, lemma_total_frequencies, leaf_syms, well_formed};
use super::lzma::{le_u16, le_u32, u32_le_bytes};
use crate::encoding::bitstream::{bytes_to_bits, pad_to_bytes};

verus! {

proof fn lemma_list_syms_finite(list: Seq<(u8, Seq<char>, u64)>)
    ensures
        list_syms(list).finite(),
    decreases list.len(),
{
    if list.len() > 0 {
        lemma_list_syms_finite(list.drop_last());
    }
}

/// The members of a finite set of bytes, listed in order, are as many as the set has.
proof fn lemma_symbols_below_len(dom: Set<u8>, k: int)
    requires
        dom.finite(),
        0 <= k <= 256,
    ensures
        Set::new(|x: u8| dom.contains(x) && x < k).finite(),
        symbols_below(dom, k).len() == Set::new(|x: u8| dom.contains(x) && x < k).len(),
    decreases k,
{
    let s = Set::new(|x: u8| dom.contains(x) && x < k);
    if k == 0 {
        assert(s =~= Set::<u8>::empty());
    } else {
        lemma_symbols_below_len(dom, k - 1);
        let t = Set::new(|x: u8| dom.contains(x) && x < k - 1);
        if dom.contains((k - 1) as u8) {
            assert(s =~= t.insert((k - 1) as u8));
        } else {
            assert(s =~= t);
        }
    }
}

/// Entry `i` of the symbol table starts at byte `6 * i` with its symbol, and its frequency
/// bytes follow two bytes later.
proof fn lemma_table_entry_at(syms: Seq<u8>, codes: Map<u8, Seq<char>>, m: Map<u8, u64>, i: int)
    requires
        0 <= i < syms.len(),
    ensures
        table_bytes(syms, codes, m).len() == 6 * syms.len(),
        table_bytes(syms, codes, m)[6 * i] == syms[i],
        table_bytes(syms, codes, m).subrange(6 * i + 2, 6 * i + 6) == u32_le_bytes(
            (if m.contains_key(syms[i]) {
                m[syms[i]]
            } else {
                0
            }) as u32,
        ),
    decreases syms.len(),
{
    let init = syms.drop_last();
    let t = table_bytes(syms, codes, m);
    let t0 = table_bytes(init, codes, m);
    let fl = if m.contains_key(syms.last()) {
        m[syms.last()]
    } else {
        0
    };
    let e = table_entry(syms.last(), codes[syms.last()], fl);
    lemma_table_len(init, codes, m);
    assert(t == t0 + e);
    if i < init.len() {
        lemma_table_entry_at(init, codes, m, i);
        assert(t[6 * i] == t0[6 * i]);
        assert(t.subrange(6 * i + 2, 6 * i + 6) =~= t0.subrange(6 * i + 2, 6 * i + 6));
        assert(init[i] == syms[i]);
    } else {
        assert(t[6 * i] == e[0]);
        assert(t.subrange(6 * i + 2, 6 * i + 6) =~= e.subrange(2, 6));
        assert(e.subrange(2, 6) =~= u32_le_bytes(fl as u32));
    }
}

proof fn lemma_table_len(syms: Seq<u8>, codes: Map<u8, Seq<char>>, m: Map<u8, u64>)
    ensures
        table_bytes(syms, codes, m).len() == 6 * syms.len(),
    decreases syms.len(),
{
    if syms.len() > 0 {
        lemma_table_len(syms.drop_last(), codes, m);
    }
}

/// Reading little-endian bytes back gives the number.
proof fn lemma_le_u32_bytes(s: Seq<u8>, i: int, v: u32)
    requires
        0 <= i,
        i + 4 <= s.len(),
        s.subrange(i, i + 4) == u32_le_bytes(v),
    ensures
        le_u32(s, i) == v,
{
    assert(s[i] == s.subrange(i, i + 4)[0]);
    assert(s[i + 1] == s.subrange(i, i + 4)[1]);
    assert(s[i + 2] == s.subrange(i, i + 4)[2]);
    assert(s[i + 3] == s.subrange(i, i + 4)[3]);
    assert((v as u8) as u32 | (((v >> 8u32) as u8) as u32) << 8u32 | (((v >> 16u32) as u8) as u32)
        << 16u32 | (((v >> 24u32) as u8) as u32) << 24u32 == v) by (bit_vector);
}

/// Reading entries whose symbols and frequencies are known gives the table of those symbols.
proof fn lemma_read_entries(data: Seq<u8>, off: int, syms: Seq<u8>, acc: Map<u8, u64>, val: spec_fn(u8) -> u64)
    requires
        0 <= off,
        off + 6 * syms.len() <= data.len(),
        forall|i: int|
            0 <= i < syms.len() ==> data[off + 6 * i] == #[trigger] syms[i] && le_u32(data, off + 6 * i + 2)
                as u64 == val(syms[i]),
    ensures
        read_table(data, off, syms.len(), acc) == Some(
            (
                Map::new(
                    |k: u8| acc.contains_key(k) || syms.contains(k),
                    |k: u8|
                        if syms.contains(k) {
                            val(k)
                        } else {
                            acc[k]
                        },
                ),
                off + 6 * syms.len(),
            ),
        ),
    decreases syms.len(),
{
    let result = Map::new(
        |k: u8| acc.contains_key(k) || syms.contains(k),
        |k: u8|
            if syms.contains(k) {
                val(k)
            } else {
                acc[k]
            },
    );
    if syms.len() == 0 {
        assert(result =~= acc);
    } else {
        let rest = syms.skip(1);
        let acc2 = acc.insert(data[off], le_u32(data, off + 2) as u64);
        assert(syms[0] == syms[0]);
        assert forall|i: int| 0 <= i < rest.len() implies data[(off + 6) + 6 * i] == #[trigger] rest[i]
            && le_u32(data, (off + 6) + 6 * i + 2) as u64 == val(rest[i]) by {
            assert((off + 6) + 6 * i == off + 6 * (i + 1));
            assert(rest[i] == syms[i + 1]);
            assert(le_u32(data, off + 6 * (i + 1) + 2) as u64 == val(syms[i + 1]));
            assert(data[off + 6 * (i + 1)] == syms[i + 1]);
        }
        lemma_read_entries(data, off + 6, rest, acc2, val);
        let r2 = Map::new(
            |k: u8| acc2.contains_key(k) || rest.contains(k),
            |k: u8|
                if rest.contains(k) {
                    val(k)
                } else {
                    acc2[k]
                },
        );
        assert forall|k: u8| syms.contains(k) <==> (k == syms[0] || rest.contains(k)) by {
            if syms.contains(k) && k != syms[0] {
                let j = choose|j: int| 0 <= j < syms.len() && syms[j] == k;
                assert(rest[j - 1] == k);
            }
            if rest.contains(k) {
                let j = choose|j: int| 0 <= j < rest.len() && rest[j] == k;
                assert(syms[j + 1] == k);
            }
            if k == syms[0] {
                assert(syms[0] == k);
            }
        }
        assert(r2 =~= result);
    }
}

/// Only the length of the codes counts when they are made of '0' and '1'.
proof fn lemma_encoded_len_binary(data: Seq<u8>, codes: Map<u8, Seq<char>>)
    requires
        forall|k: u8, j: int|
            codes.contains_key(k) && 0 <= j < codes[k].len() ==> #[trigger] codes[k][j] == '0' || codes[k][j]
                == '1',
    ensures
        encoded_len(data, codes) == encoded_chars(data, codes).len(),
    decreases data.len(),
{
    if data.len() > 0 {
        lemma_encoded_len_binary(data.drop_last(), codes);
        let x = data.last();
        if codes.contains_key(x) {
            let c = codes[x];
            assert(vstd::utf8::is_ascii_chars(c)) by {
                assert forall|j: int| 0 <= j < c.len() implies '\0' <= #[trigger] c[j] <= '\u{7f}' by {
                    assert(codes[x][j] == '0' || codes[x][j] == '1');
                }
            }
            vstd::utf8::is_ascii_chars_encode_utf8(c);
        }
    }
}

/// Decoding, with the Huffman tree of `data`'s frequencies, the first `encoded_len` bits of
/// what `encode_data` makes of `data` under that tree's codes gives back `data`. This holds
/// also when `data` has a single distinct byte, whose code is "0" at a leaf root.
pub proof fn lemma_huffman_data_roundtrip(data: Seq<u8>, encoded: Seq<u8>)
    requires
        data.len() <= u64::MAX,
        data.len() > 0,
        bytes_to_bits(encoded) == pad_to_bytes(char_bits(encoded_chars(data, huffman_codes(data)))),
    ensures
        huffman_tree(frequencies(data)) is Some,
        decode_bits(
            encoded,
            encoded_len(data, huffman_codes(data)),
            huffman_tree(frequencies(data)).unwrap(),
        ) == data,
{
    let m = frequencies(data);
    lemma_leaves(m);
    assert(m.contains_key(data[0]));
    lemma_total_frequencies(data);
    lemma_reduce(leaves(m));
    let t = huffman_tree(m).unwrap();
    let codes = huffman_codes(data);
    assert(codes == code_table(t));
    let list = leaf_codes(t, Seq::empty());
    lemma_insert_codes_last(list);
    lemma_code_syms(t, Seq::empty());
    assert(codes.dom() =~= m.dom());
    lemma_codes_binary(t, Seq::empty());
    assert forall|k: u8, j: int| codes.contains_key(k) && 0 <= j < codes[k].len() implies #[trigger] codes[k][j]
        == '0' || codes[k][j] == '1' by {
        let i = last_index(list, k);
        assert(codes[k] == list[i].1);
    }
    lemma_encoded_len_binary(data, codes);
    assert forall|i: int| 0 <= i < data.len() implies code_table(t).contains_key(#[trigger] data[i]) by {
        assert(m.contains_key(data[i]));
    }
    lemma_decode_data(t, data, Seq::empty());
    let chars = encoded_chars(data, codes);
    let bits = bytes_to_bits(encoded);
    assert(bits.take(chars.len() as int) =~= char_bits(chars));
    assert(char_bits(chars) + Seq::<bool>::empty() =~= char_bits(chars));
    assert(data + Seq::<u8>::empty() =~= data);
}

/// Decompressing Huffman's compressed form of `data` gives `data` back, whenever the encoded
/// bit count fits the 32-bit header field and every frequency fits its 32-bit table field.
pub proof fn lemma_huffman_roundtrip(data: Seq<u8>, out: Seq<u8>)
    requires
        is_huffman_output(data, out),
        data.len() <= usize::MAX,
        encoded_len(data, huffman_codes(data)) <= u32::MAX,
        forall|b: u8| byte_count(data, b) <= u32::MAX,
    ensures
        huffman_decompressed(out) == Ok::<Seq<u8>, Seq<char>>(data),
{
    let m = frequencies(data);
    lemma_leaves(m);
    let h = huffman_header(data);
    let codes = huffman_codes(data);
    let chars = encoded_chars(data, codes);
    if m.dom() =~= Set::<u8>::empty() {
        if data.len() > 0 {
            assert(m.contains_key(data[0]));
        }
        assert(leaves(m) =~= Seq::<HuffmanNode>::empty());
        assert(codes =~= Map::<u8, Seq<char>>::empty());
        lemma_encoded_empty_codes(data);
        assert(symbols_below(codes.dom(), 256) =~= Seq::<u8>::empty()) by {
            lemma_symbols_below(codes.dom(), 256);
        }
        assert(table_bytes(Seq::<u8>::empty(), codes, m) =~= Seq::<u8>::empty());
        assert(out.take(h.len() as int) == h);
        assert(h =~= u32_le_bytes(0) + u16_le_bytes(0));
        assert(out.subrange(0, 4) =~= u32_le_bytes(0)) by {
            assert forall|j: int| 0 <= j < 4 implies out[j] == h[j] by {
                assert(out.take(h.len() as int)[j] == out[j]);
            }
        }
        lemma_le_u32_bytes(out, 0, 0);
        assert(data =~= Seq::<u8>::empty());
    } else {
        lemma_total_frequencies(data);
        lemma_reduce(leaves(m));
        let t = huffman_tree(m).unwrap();
        assert(codes == code_table(t));
        let list = leaf_codes(t, Seq::empty());
        lemma_insert_codes_last(list);
        lemma_code_syms(t, Seq::empty());
        lemma_list_syms_finite(list);
        assert(codes.dom() =~= m.dom());
        lemma_codes_binary(t, Seq::empty());
        assert forall|k: u8, j: int| codes.contains_key(k) && 0 <= j < codes[k].len() implies #[trigger] codes[k][j]
            == '0' || codes[k][j] == '1' by {
            let i = last_index(list, k);
            assert(codes[k] == list[i].1);
        }
        lemma_encoded_len_binary(data, codes);
        // The data's bytes all have codes.
        assert forall|i: int| 0 <= i < data.len() implies code_table(t).contains_key(#[trigger] data[i]) by {
            assert(m.contains_key(data[i]));
        }
        lemma_decode_data(t, data, Seq::empty());
        // Some bits are encoded.
        assert(chars.len() > 0) by {
            let x = data.last();
            assert(codes.contains_key(data[data.len() - 1]));
            let i = last_index(list, x);
            assert(codes[x] == list[i].1);
            assert(chars == encoded_chars(data.drop_last(), codes) + codes[x]);
        }
        // The header fields.
        let e = encoded_len(data, codes);
        let n = codes.dom().len();
        let syms = symbols_below(codes.dom(), 256);
        lemma_symbols_below(codes.dom(), 256);
        lemma_symbols_below_len(codes.dom(), 256);
        assert(Set::new(|x: u8| codes.dom().contains(x) && x < 256) =~= codes.dom());
        assert(syms.len() == n);
        lemma_table_len(syms, codes, m);
        let table = table_bytes(syms, codes, m);
        assert(h == u32_le_bytes(e as u32) + u16_le_bytes(n as u16) + table);
        assert(h.len() == 6 + 6 * n);
        assert(out.take(h.len() as int) == h);
        assert forall|j: int| 0 <= j < h.len() implies #[trigger] out[j] == h[j] by {
            assert(out.take(h.len() as int)[j] == out[j]);
        }
        assert forall|j: int| 0 <= j < table.len() implies #[trigger] h[6 + j] == table[j] by {}
        assert(out.subrange(0, 4) =~= u32_le_bytes(e as u32));
        lemma_le_u32_bytes(out, 0, e as u32);
        assert(le_u32(out, 0) == e);
        assert(out[4] == h[4] && out[5] == h[5]);
        let nn = n as u16;
        assert((nn as u8) as u16 | ((((nn >> 8u16) as u8) as u16) << 8u16) == nn) by (bit_vector);
        assert(le_u16(out, 4) == n);
        // The symbol table reads back as the frequency table.
        let val = |k: u8| (m[k] as u32) as u64;
        assert forall|i: int| 0 <= i < syms.len() implies out[6 + 6 * i] == #[trigger] syms[i]
            && le_u32(out, 6 + 6 * i + 2) as u64 == val(syms[i]) by {
            lemma_table_entry_at(syms, codes, m, i);
            assert(table[6 * i] == syms[i]);
            assert(out[6 + 6 * i] == h[6 + 6 * i]);
            assert(h[6 + 6 * i] == table[6 * i]);
            assert(m.contains_key(syms[i]));
            assert forall|j: int| 0 <= j < 4 implies #[trigger] out.subrange(6 + 6 * i + 2, 6 + 6 * i + 6)[j]
                == table.subrange(6 * i + 2, 6 * i + 6)[j] by {
                assert(out[6 + (6 * i + 2 + j)] == h[6 + (6 * i + 2 + j)]);
                assert(h[6 + (6 * i + 2 + j)] == table[6 * i + 2 + j]);
            }
            assert(out.subrange(6 + 6 * i + 2, 6 + 6 * i + 6) =~= table.subrange(6 * i + 2, 6 * i + 6));
            lemma_le_u32_bytes(out, 6 + 6 * i + 2, m[syms[i]] as u32);
        }
        lemma_read_entries(out, 6, syms, Map::empty(), val);
        let m2 = Map::new(
            |k: u8| Map::<u8, u64>::empty().contains_key(k) || syms.contains(k),
            |k: u8|
                if syms.contains(k) {
                    val(k)
                } else {
                    Map::<u8, u64>::empty()[k]
                },
        );
        assert forall|k: u8| #[trigger] m2.contains_key(k) == m.contains_key(k) by {
            if m.contains_key(k) {
                assert(syms.contains(k));
            }
        }
        assert forall|k: u8| m.contains_key(k) implies #[trigger] m2[k] == m[k] by {
            lemma_byte_count(data, k);
            assert(syms.contains(k));
            assert(m[k] <= u32::MAX);
        }
        assert(m2 =~= m);
        // The code bits decode to the data.
        let packed = out.skip(h.len() as int);
        let bits = bytes_to_bits(packed);
        assert(bits == pad_to_bytes(char_bits(chars)));
        assert(bits.take(e as int) =~= char_bits(chars));
        assert(char_bits(chars) + Seq::<bool>::empty() =~= char_bits(chars));
        assert(data + Seq::<u8>::empty() =~= data);
        assert(decode_bits(packed, e as nat, t) == data);
    }
}

/// The tree of a frequency table exists exactly when the table has a symbol; its root's
/// frequency is the sum of the table's frequencies, and its code table has exactly the
/// table's symbols.
pub proof fn lemma_huffman_tree_shape(m: Map<u8, u64>)
    requires
        forest_total(leaves(m)) <= u64::MAX,
    ensures
        huffman_tree(m) is Some <==> !(m.dom() =~= Set::<u8>::empty()),
        huffman_tree(m) matches Some(t) ==> {
            &&& t.frequency == forest_total(leaves(m))
            &&& code_table(t).dom() =~= m.dom()
            &&& well_formed(t)
        },
{
    lemma_leaves(m);
    if m.dom() =~= Set::<u8>::empty() {
        assert(leaves(m) =~= Seq::<HuffmanNode>::empty());
    } else {
        lemma_reduce(leaves(m));
        let t = huffman_tree(m).unwrap();
        let list = leaf_codes(t, Seq::empty());
        lemma_insert_codes_last(list);
        lemma_code_syms(t, Seq::empty());
    }
}

/// No code of a frequency table's tree is a prefix of another symbol's code.
pub proof fn lemma_huffman_prefix_free(m: Map<u8, u64>, a: u8, b: u8)
    requires
        forest_total(leaves(m)) <= u64::MAX,
        a != b,
        m.contains_key(a),
        m.contains_key(b),
    ensures
        huffman_tree(m) is Some,
        !is_prefix_of(code_table(huffman_tree(m).unwrap())[a], code_table(huffman_tree(m).unwrap())[b]),
{
    lemma_huffman_tree_shape(m);
    let t = huffman_tree(m).unwrap();
    lemma_prefix_free(t, a, b);
}


/// What a Huffman coder of any layer compresses, every Huffman coder decompresses back to the
/// input, whatever metadata travels with the bytes: decompression reads the bytes alone. The
/// bit count and each byte's count must fit the 32-bit fields of the header.
pub proof fn lemma_huffman_compress_decompress(
    c: HuffmanCoder,
    input: Seq<u8>,
    data: Seq<u8>,
    metadata: Metadata,
    steps: Seq<AlgorithmStep>,
)
    requires
        c.compressed_as(input, data, metadata, steps),
        input.len() <= usize::MAX,
        encoded_len(input, huffman_codes(input)) <= u32::MAX,
        forall|b: u8| byte_count(input, b) <= u32::MAX,
    ensures
        huffman_decompressed(data) == Ok::<Seq<u8>, Seq<char>>(input),
{
    lemma_huffman_roundtrip(input, data);
}

} // verus!
