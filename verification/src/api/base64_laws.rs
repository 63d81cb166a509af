use vstd::prelude::*;

use super::handlers::{base64_value, decode_base64, decode_group, decode_groups};

verus! {

/// Whether every byte of `s` is a base64 character: A-Z, a-z, 0-9, `+`, `/` or `=`.
pub open spec fn all_base64(s: Seq<u8>) -> bool {
    forall|i: int| 0 <= i < s.len() ==> (#[trigger] base64_value(s[i])) is Some
}

/// The number of groups of four characters of `s` whose third character is `=`, plus the
/// number whose fourth character is `=`.
pub open spec fn padding_count(s: Seq<u8>) -> nat
    decreases s.len(),
{
    if s.len() < 4 {
        0
    } else {
        let g = s.skip(s.len() - 4);
        padding_count(s.take(s.len() - 4)) + (if g[2] == '=' as u8 {
            1nat
        } else {
            0nat
        }) + (if g[3] == '=' as u8 {
            1nat
        } else {
            0nat
        })
    }
}

/// Whole groups decode exactly when every byte is a base64 character, to three bytes per
/// group less one for each `=` in a third or fourth place.
proof fn lemma_decode_groups_shape(s: Seq<u8>)
    requires
        s.len() % 4 == 0,
    ensures
        decode_groups(s) is Ok <==> all_base64(s),
        decode_groups(s) matches Ok(v) ==> v.len() == 3 * (s.len() / 4) - padding_count(s),
    decreases s.len(),
{
    if s.len() >= 4 {
        let n = s.len() as int;
        let p = s.take(n - 4);
        let g = s.skip(n - 4);
        lemma_decode_groups_shape(p);
        assert forall|i: int| 0 <= i < 4 implies #[trigger] g[i] == s[n - 4 + i] by {}
        assert forall|i: int| 0 <= i < n - 4 implies #[trigger] p[i] == s[i] by {}
        if all_base64(s) {
            assert forall|i: int| 0 <= i < p.len() implies (#[trigger] base64_value(p[i])) is Some by {
                assert(base64_value(s[i]) is Some);
            }
            assert(base64_value(s[n - 4]) is Some);
            assert(base64_value(s[n - 3]) is Some);
            assert(base64_value(s[n - 2]) is Some);
            assert(base64_value(s[n - 1]) is Some);
        }
        if decode_groups(s) is Ok {
            assert(decode_groups(p) is Ok);
            assert(decode_group(g) is Ok);
            assert forall|i: int| 0 <= i < n implies (#[trigger] base64_value(s[i])) is Some by {
                if i < n - 4 {
                    assert(base64_value(p[i]) is Some);
                } else {
                    assert(s[i] == g[i - (n - 4)]);
                }
            }
        }
        assert((n - 4) / 4 == n / 4 - 1);
    }
}

/// Base64 text fails to decode exactly when it is not empty and its length is not a multiple
/// of 4 or it holds a byte outside A-Z, a-z, 0-9, `+`, `/` and `=`. The bytes that it decodes
/// to number three for each group of four characters, less one for each group whose third
/// character is `=` and one for each group whose fourth character is `=`.
pub proof fn lemma_base64_decode_shape(s: Seq<u8>)
    ensures
        decode_base64(s) is Err <==> (s.len() > 0 && (s.len() % 4 != 0 || !all_base64(s))),
        decode_base64(s) matches Ok(v) ==> v.len() == 3 * (s.len() / 4) - padding_count(s),
{
    if s.len() > 0 && s.len() % 4 == 0 {
        lemma_decode_groups_shape(s);
    }
}

/// The base64 character of the 6-bit value `v`: A-Z, a-z, 0-9, `+`, `/`.
pub open spec fn base64_char(v: u8) -> u8 {
    if v < 26 {
        ('A' as u8 + v) as u8
    } else if v < 52 {
        ('a' as u8 + (v - 26)) as u8
    } else if v < 62 {
        ('0' as u8 + (v - 52)) as u8
    } else if v == 62 {
        '+' as u8
    } else {
        '/' as u8
    }
}

/// The four characters of three bytes.
pub open spec fn encode_triple(a: u8, b: u8, c: u8) -> Seq<u8> {
    seq![
        base64_char(a >> 2u8),
        base64_char(((a & 3u8) << 4u8) | (b >> 4u8)),
        base64_char(((b & 15u8) << 2u8) | (c >> 6u8)),
        base64_char(c & 63u8),
    ]
}

/// The standard base64 encoding of `x`, with `=` padding in its last group.
pub open spec fn encode_base64(x: Seq<u8>) -> Seq<u8>
    decreases x.len(),
{
    if x.len() == 0 {
        Seq::empty()
    } else if x.len() == 1 {
        seq![base64_char(x[0] >> 2u8), base64_char((x[0] & 3u8) << 4u8), '=' as u8, '=' as u8]
    } else if x.len() == 2 {
        seq![
            base64_char(x[0] >> 2u8),
            base64_char(((x[0] & 3u8) << 4u8) | (x[1] >> 4u8)),
            base64_char((x[1] & 15u8) << 2u8),
            '=' as u8,
        ]
    } else {
        encode_triple(x[0], x[1], x[2]) + encode_base64(x.skip(3))
    }
}

proof fn lemma_base64_char(v: u8)
    requires
        v < 64,
    ensures
        base64_value(base64_char(v)) == Some(v),
        base64_char(v) != '=' as u8,
{
}

/// Whole groups decode group by group.
proof fn lemma_decode_groups_append(a: Seq<u8>, b: Seq<u8>, x: Seq<u8>, y: Seq<u8>)
    requires
        a.len() % 4 == 0,
        b.len() % 4 == 0,
        decode_groups(a) == Ok::<Seq<u8>, Seq<char>>(x),
        decode_groups(b) == Ok::<Seq<u8>, Seq<char>>(y),
    ensures
        decode_groups(a + b) == Ok::<Seq<u8>, Seq<char>>(x + y),
    decreases b.len(),
{
    if b.len() == 0 {
        assert(a + b =~= a);
        assert(x + y =~= x);
    } else {
        let bp = b.take(b.len() - 4);
        let ab = a + b;
        assert(ab.take(ab.len() - 4) =~= a + bp);
        assert(ab.skip(ab.len() - 4) =~= b.skip(b.len() - 4));
        if let Ok(yp) = decode_groups(bp) {
            if let Ok(out) = decode_group(b.skip(b.len() - 4)) {
                lemma_decode_groups_append(a, bp, x, yp);
                assert(x + yp + out =~= x + y);
            }
        }
    }
}

/// One group decodes on its own.
proof fn lemma_decode_one_group(g: Seq<u8>)
    requires
        g.len() == 4,
    ensures
        decode_groups(g) == decode_group(g),
{
    let p = g.take(g.len() - 4);
    assert(p.len() == 0);
    assert(decode_groups(p) == Ok::<Seq<u8>, Seq<char>>(Seq::empty()));
    assert(g.skip(g.len() - 4) =~= g);
    if let Ok(out) = decode_group(g) {
        assert(Seq::<u8>::empty() + out =~= out);
    }
}

/// The standard encoding has four characters for each started group of three bytes, and
/// decodes back to the bytes.
proof fn lemma_encode_decode_groups(x: Seq<u8>)
    ensures
        encode_base64(x).len() % 4 == 0,
        encode_base64(x).len() == 0 <==> x.len() == 0,
        decode_groups(encode_base64(x)) == Ok::<Seq<u8>, Seq<char>>(x),
    decreases x.len(),
{
    let e = encode_base64(x);
    if x.len() == 0 {
        assert(x =~= Seq::<u8>::empty());
    } else if x.len() == 1 {
        let a = x[0];
        assert((a & 3u8) << 4u8 < 64) by (bit_vector);
        assert(a >> 2u8 < 64) by (bit_vector);
        lemma_base64_char(a >> 2u8);
        lemma_base64_char((a & 3u8) << 4u8);
        assert((((a >> 2u8) << 2u8) | (((a & 3u8) << 4u8) >> 4u8)) == a) by (bit_vector);
        lemma_decode_one_group(e);
        assert(decode_group(e) == Ok::<Seq<u8>, Seq<char>>(seq![a]));
        assert(seq![a] =~= x);
    } else if x.len() == 2 {
        let (a, b) = (x[0], x[1]);
        let v1 = ((a & 3u8) << 4u8) | (b >> 4u8);
        let v2 = (b & 15u8) << 2u8;
        assert(a >> 2u8 < 64 && v1 < 64 && v2 < 64) by (bit_vector)
            requires
                v1 == ((a & 3u8) << 4u8) | (b >> 4u8),
                v2 == (b & 15u8) << 2u8,
        ;
        lemma_base64_char(a >> 2u8);
        lemma_base64_char(v1);
        lemma_base64_char(v2);
        assert((((a >> 2u8) << 2u8) | (v1 >> 4u8)) == a && ((v1 << 4u8) | (v2 >> 2u8)) == b)
            by (bit_vector)
            requires
                v1 == ((a & 3u8) << 4u8) | (b >> 4u8),
                v2 == (b & 15u8) << 2u8,
        ;
        lemma_decode_one_group(e);
        assert(decode_group(e) == Ok::<Seq<u8>, Seq<char>>(seq![a] + seq![b] + Seq::empty()));
        assert(seq![a] + seq![b] + Seq::empty() =~= x);
    } else {
        let (a, b, c) = (x[0], x[1], x[2]);
        let v1 = ((a & 3u8) << 4u8) | (b >> 4u8);
        let v2 = ((b & 15u8) << 2u8) | (c >> 6u8);
        assert(a >> 2u8 < 64 && v1 < 64 && v2 < 64 && c & 63u8 < 64) by (bit_vector)
            requires
                v1 == ((a & 3u8) << 4u8) | (b >> 4u8),
                v2 == ((b & 15u8) << 2u8) | (c >> 6u8),
        ;
        lemma_base64_char(a >> 2u8);
        lemma_base64_char(v1);
        lemma_base64_char(v2);
        lemma_base64_char(c & 63u8);
        assert((((a >> 2u8) << 2u8) | (v1 >> 4u8)) == a && ((v1 << 4u8) | (v2 >> 2u8)) == b && ((
        v2 << 6u8) | (c & 63u8)) == c) by (bit_vector)
            requires
                v1 == ((a & 3u8) << 4u8) | (b >> 4u8),
                v2 == ((b & 15u8) << 2u8) | (c >> 6u8),
        ;
        let g = encode_triple(a, b, c);
        lemma_decode_one_group(g);
        assert(decode_group(g) == Ok::<Seq<u8>, Seq<char>>(seq![a] + seq![b] + seq![c]));
        let rest = x.skip(3);
        lemma_encode_decode_groups(rest);
        lemma_decode_groups_append(g, encode_base64(rest), seq![a] + seq![b] + seq![c], rest);
        assert(seq![a] + seq![b] + seq![c] + rest =~= x);
    }
}

/// Decoding the standard base64 encoding of any bytes gives back those bytes.
pub proof fn lemma_base64_roundtrip(x: Seq<u8>)
    ensures
        decode_base64(encode_base64(x)) == Ok::<Seq<u8>, Seq<char>>(x),
{
    lemma_encode_decode_groups(x);
}

} // verus!
