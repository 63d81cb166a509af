use vstd::prelude::*;
use vstd::string::StrSliceExecFns;
use vstd::utf8::encode_utf8;

use crate::bytes::copy_slice;
use crate::pipeline::compression_pipeline::PipelineConfig;
use crate::text::push_char;

verus! {

/// Request body for compression.
#[derive(Debug)]
pub struct CompressRequest {
    /// Base64-encoded input data, or raw text.
    pub input: String,
    /// Whether the input is base64 encoded.
    pub is_base64: bool,
    /// Pipeline configuration.
    pub config: PipelineConfig,
}

/// Request for decompression.
#[derive(Debug)]
pub struct DecompressRequest {
    /// Algorithm to decompress with.
    pub algorithm: String,
    /// Base64-encoded compressed data.
    pub data: String,
}

/// Algorithm info for listing.
#[derive(Debug)]
pub struct AlgorithmInfo {
    pub name: String,
    pub description: String,
    pub configurable_params: Vec<ParamInfo>,
}

/// A parameter of an algorithm, for listing.
#[derive(Debug)]
pub struct ParamInfo {
    pub name: String,
    pub description: String,
    pub default_value: String,
    pub param_type: String,
}

/// Why a compress request is refused.
#[derive(Debug)]
pub enum RequestError {
    /// The input is marked as base64 and does not decode; the message says why.
    InvalidBase64(String),
    /// The input holds more than `MAX_INPUT_BYTES` bytes.
    TooLarge,
}

/// The largest input that a compress request may carry: 100 MiB.
pub const MAX_INPUT_BYTES: usize = 100 * 1024 * 1024;

/// Whether `c` has the Unicode property White_Space, the white space that `str::trim`
/// removes: U+0009 to U+000D, U+0020, U+0085, U+00A0, U+1680, U+2000 to U+200A, U+2028,
/// U+2029, U+202F, U+205F and U+3000.
pub open spec fn is_white_space(c: char) -> bool {
    let u = c as u32;
    ||| 0x09 <= u <= 0x0D
    ||| u == 0x20
    ||| u == 0x85
    ||| u == 0xA0
    ||| u == 0x1680
    ||| 0x2000 <= u <= 0x200A
    ||| u == 0x2028
    ||| u == 0x2029
    ||| u == 0x202F
    ||| u == 0x205F
    ||| u == 0x3000
}

/// `s` without its leading and trailing white space.
pub open spec fn trim_white_space(s: Seq<char>) -> Seq<char>
    decreases s.len(),
{
    if s.len() > 0 && is_white_space(s[0]) {
        trim_white_space(s.drop_first())
    } else if s.len() > 0 && is_white_space(s.last()) {
        trim_white_space(s.drop_last())
    } else {
        s
    }
}

fn white_space(c: char) -> (b: bool)
    ensures
        b == is_white_space(c),
{
    let u = c as u32;
    (0x09 <= u && u <= 0x0D) || u == 0x20 || u == 0x85 || u == 0xA0 || u == 0x1680 || (0x2000
        <= u && u <= 0x200A) || u == 0x2028 || u == 0x2029 || u == 0x202F || u == 0x205F || u
        == 0x3000
}

/// Dropping leading white space does not change what trimming leaves.
proof fn lemma_trim_leading(s: Seq<char>, k: int)
    requires
        0 <= k <= s.len(),
        forall|i: int| 0 <= i < k ==> is_white_space(#[trigger] s[i]),
    ensures
        trim_white_space(s) == trim_white_space(s.skip(k)),
    decreases k,
{
    if k == 0 {
        assert(s.skip(0) =~= s);
    } else {
        assert(is_white_space(s[0]));
        let t = s.drop_first();
        assert forall|i: int| 0 <= i < k - 1 implies is_white_space(#[trigger] t[i]) by {
            assert(t[i] == s[i + 1]);
        }
        lemma_trim_leading(t, k - 1);
        assert(t.skip(k - 1) =~= s.skip(k));
    }
}

/// Behind a first character that is not white space, dropping trailing white space does not
/// change what trimming leaves.
proof fn lemma_trim_trailing(s: Seq<char>, k: int)
    requires
        0 <= k <= s.len(),
        s.len() > 0 ==> !is_white_space(s[0]),
        forall|i: int| k <= i < s.len() ==> is_white_space(#[trigger] s[i]),
    ensures
        trim_white_space(s) == trim_white_space(s.take(k)),
    decreases s.len() - k,
{
    if k == s.len() {
        assert(s.take(k) =~= s);
    } else {
        assert(is_white_space(s[s.len() - 1]));
        let t = s.drop_last();
        assert(k > 0);
        assert(t[0] == s[0]);
        assert forall|i: int| k <= i < t.len() implies is_white_space(#[trigger] t[i]) by {
            assert(t[i] == s[i]);
        }
        lemma_trim_trailing(t, k);
        assert(t.take(k) =~= s.take(k));
    }
}

/// Removes leading and trailing white space, as `str::trim` does.
fn trim_whitespace<'a>(s: &'a str) -> (t: &'a str)
    ensures
        t@ == trim_white_space(s@),
{
    let n = s.unicode_len();
    let mut start: usize = 0;
    while start < n && white_space(s.get_char(start))
        invariant
            start <= n == s@.len(),
            forall|i: int| 0 <= i < start ==> is_white_space(#[trigger] s@[i]),
        decreases n - start,
    {
        start += 1;
    }
    let mut end: usize = n;
    while end > start && white_space(s.get_char(end - 1))
        invariant
            start <= end <= n == s@.len(),
            forall|i: int| end <= i < n ==> is_white_space(#[trigger] s@[i]),
        decreases end - start,
    {
        end -= 1;
    }
    let t = s.substring_char(start, end);
    proof {
        lemma_trim_leading(s@, start as int);
        let rest = s@.skip(start as int);
        assert forall|i: int| end - start <= i < rest.len() implies is_white_space(
            #[trigger] rest[i],
        ) by {
            assert(rest[i] == s@[i + start]);
        }
        if rest.len() > 0 {
            assert(rest[0] == s@[start as int]);
        }
        lemma_trim_trailing(rest, end - start);
        assert(rest.take(end - start) =~= t@);
        if t@.len() > 0 {
            assert(t@[0] == s@[start as int]);
            assert(t@.last() == s@[end - 1]);
        }
    }
    t
}

/// The value of a base64 character; the padding character `=` counts as zero.
pub open spec fn base64_value(c: u8) -> Option<u8> {
    if 'A' as u8 <= c <= 'Z' as u8 {
        Some((c - 'A' as u8) as u8)
    } else if 'a' as u8 <= c <= 'z' as u8 {
        Some((c - 'a' as u8 + 26) as u8)
    } else if '0' as u8 <= c <= '9' as u8 {
        Some((c - '0' as u8 + 52) as u8)
    } else if c == '+' as u8 {
        Some(62u8)
    } else if c == '/' as u8 {
        Some(63u8)
    } else if c == '=' as u8 {
        Some(0u8)
    } else {
        None
    }
}

/// The message for an invalid base64 character.
pub open spec fn invalid_char_message(c: u8) -> Seq<char> {
    "Invalid base64 character: "@.push(c as char)
}

/// The bytes of a group of four base64 characters, or the message for its first invalid
/// character. A third or fourth character `=` drops the byte that it would end.
pub open spec fn decode_group(g: Seq<u8>) -> Result<Seq<u8>, Seq<char>> {
    if base64_value(g[0]) is None {
        Err(invalid_char_message(g[0]))
    } else if base64_value(g[1]) is None {
        Err(invalid_char_message(g[1]))
    } else if base64_value(g[2]) is None {
        Err(invalid_char_message(g[2]))
    } else if base64_value(g[3]) is None {
        Err(invalid_char_message(g[3]))
    } else {
        let a = base64_value(g[0])->0;
        let b = base64_value(g[1])->0;
        let c = base64_value(g[2])->0;
        let d = base64_value(g[3])->0;
        let first = seq![(a << 2u8) | (b >> 4u8)];
        let second = if g[2] != '=' as u8 {
            seq![(b << 4u8) | (c >> 2u8)]
        } else {
            Seq::empty()
        };
        let third = if g[3] != '=' as u8 {
            seq![(c << 6u8) | d]
        } else {
            Seq::empty()
        };
        Ok(first + second + third)
    }
}

/// The groups of four characters of `s`, decoded in order; the first invalid character
/// stops the decoding.
pub open spec fn decode_groups(s: Seq<u8>) -> Result<Seq<u8>, Seq<char>>
    decreases s.len(),
{
    if s.len() < 4 {
        Ok(Seq::empty())
    } else {
        match decode_groups(s.take(s.len() - 4)) {
            Err(e) => Err(e),
            Ok(prev) => match decode_group(s.skip(s.len() - 4)) {
                Err(e) => Err(e),
                Ok(out) => Ok(prev + out),
            },
        }
    }
}

/// The bytes that the base64 text `s` stands for, or why it stands for none.
pub open spec fn decode_base64(s: Seq<u8>) -> Result<Seq<u8>, Seq<char>> {
    if s.len() == 0 {
        Ok(Seq::empty())
    } else if s.len() % 4 != 0 {
        Err("Invalid base64 length"@)
    } else {
        decode_groups(s)
    }
}

/// A decoding result taken by its views.
pub open spec fn decoded_view(r: Result<Vec<u8>, String>) -> Result<Seq<u8>, Seq<char>> {
    match r {
        Ok(v) => Ok(v@),
        Err(e) => Err(e@),
    }
}

/// Once a whole number of groups fails to decode, so does every longer text of whole groups.
proof fn lemma_decode_groups_err(s: Seq<u8>, j: int, e: Seq<char>)
    requires
        0 <= j <= s.len(),
        j % 4 == 0,
        s.len() % 4 == 0,
        decode_groups(s.take(j)) == Err::<Seq<u8>, Seq<char>>(e),
    ensures
        decode_groups(s) == Err::<Seq<u8>, Seq<char>>(e),
    decreases s.len() - j,
{
    if j == s.len() {
        assert(s.take(j) =~= s);
    } else {
        let t = s.take(s.len() - 4);
        assert(t.take(j) =~= s.take(j));
        lemma_decode_groups_err(t, j, e);
    }
}

fn invalid_char_error(c: u8) -> (e: String)
    ensures
        e@ == invalid_char_message(c),
{
    let mut e = "Invalid base64 character: ".to_owned();
    push_char(&mut e, c as char);
    e
}

/// The value of one base64 character, or the message for an invalid one.
fn decode_char(c: u8) -> (r: Result<u8, String>)
    ensures
        match base64_value(c) {
            Some(v) => r matches Ok(x) && x == v,
            None => r matches Err(e) && e@ == invalid_char_message(c),
        },
{
    if 65 <= c && c <= 90 {
        Ok(c - 65)
    } else if 97 <= c && c <= 122 {
        Ok(c - 97 + 26)
    } else if 48 <= c && c <= 57 {
        Ok(c - 48 + 52)
    } else if c == 43 {
        Ok(62)
    } else if c == 47 {
        Ok(63)
    } else if c == 61 {
        Ok(0)
    } else {
        Err(invalid_char_error(c))
    }
}

/// Decodes the base64 text `s`, four characters at a time.
pub fn decode_base64_bytes(s: &[u8]) -> (r: Result<Vec<u8>, String>)
    ensures
        decoded_view(r) == decode_base64(s@),
{
    if s.len() == 0 {
        return Ok(Vec::new());
    }
    if s.len() % 4 != 0 {
        return Err("Invalid base64 length".to_owned());
    }
    let mut output: Vec<u8> = Vec::new();
    let mut i: usize = 0;
    while i < s.len()
        invariant
            i <= s@.len(),
            i % 4 == 0,
            s@.len() % 4 == 0,
            decode_groups(s@.take(i as int)) == Ok::<Seq<u8>, Seq<char>>(output@),
        decreases s@.len() - i,
    {
        let ghost g = s@.subrange(i as int, i + 4);
        let ghost next = s@.take(i + 4);
        proof {
            assert(next.take(next.len() - 4) =~= s@.take(i as int));
            assert(next.skip(next.len() - 4) =~= g);
        }
        let a = match decode_char(s[i]) {
            Ok(v) => v,
            Err(e) => {
                proof {
                    lemma_decode_groups_err(s@, i + 4, e@);
                }
                return Err(e);
            },
        };
        let b = match decode_char(s[i + 1]) {
            Ok(v) => v,
            Err(e) => {
                proof {
                    lemma_decode_groups_err(s@, i + 4, e@);
                }
                return Err(e);
            },
        };
        let c = match decode_char(s[i + 2]) {
            Ok(v) => v,
            Err(e) => {
                proof {
                    lemma_decode_groups_err(s@, i + 4, e@);
                }
                return Err(e);
            },
        };
        let d = match decode_char(s[i + 3]) {
            Ok(v) => v,
            Err(e) => {
                proof {
                    lemma_decode_groups_err(s@, i + 4, e@);
                }
                return Err(e);
            },
        };
        let ghost before = output@;
        output.push((a << 2) | (b >> 4));
        if s[i + 2] != 61 {
            output.push((b << 4) | (c >> 2));
        }
        if s[i + 3] != 61 {
            output.push((c << 6) | d);
        }
        proof {
            assert(g[0] == s@[i as int] && g[1] == s@[i + 1] && g[2] == s@[i + 2] && g[3] == s@[i + 3]);
            let first = seq![(a << 2u8) | (b >> 4u8)];
            let second = if g[2] != 61u8 { seq![(b << 4u8) | (c >> 2u8)] } else { Seq::empty() };
            let third = if g[3] != 61u8 { seq![(c << 6u8) | d] } else { Seq::empty() };
            assert(output@.skip(before.len() as int) =~= first + second + third);
            assert(decode_group(g) == Ok::<Seq<u8>, Seq<char>>(output@.skip(before.len() as int)));
            assert(output@ =~= before + output@.skip(before.len() as int));
        }
        i = i + 4;
    }
    assert(s@.take(s@.len() as int) =~= s@);
    Ok(output)
}

/// Decodes base64 text, after removing the white space around it.
pub fn base64_decode(input: &str) -> (r: Result<Vec<u8>, String>)
    ensures
        decoded_view(r) == decode_base64(encode_utf8(trim_white_space(input@))),
{
    let t = trim_whitespace(input);
    decode_base64_bytes(t.as_bytes())
}


/// The bytes that a compress request asks for: its text decoded where it is marked as base64,
/// else the UTF-8 bytes of its text.
pub open spec fn requested_bytes(request: CompressRequest) -> Result<Seq<u8>, Seq<char>> {
    if request.is_base64 {
        decode_base64(encode_utf8(trim_white_space(request.input@)))
    } else {
        Ok(encode_utf8(request.input@))
    }
}

/// A compress request whose text is not marked as base64 asks for exactly the UTF-8 bytes of
/// its text: nothing is trimmed, decoded or otherwise changed.
pub proof fn lemma_raw_text_request(request: CompressRequest)
    requires
        !request.is_base64,
    ensures
        requested_bytes(request) == Ok::<Seq<u8>, Seq<char>>(encode_utf8(request.input@)),
{
}

/// The bytes that a compress request asks to compress, refused where its base64 does not
/// decode or where they exceed `MAX_INPUT_BYTES`.
pub fn request_input_bytes(request: &CompressRequest) -> (r: Result<Vec<u8>, RequestError>)
    ensures
        match requested_bytes(*request) {
            Err(m) => r matches Err(RequestError::InvalidBase64(e)) && e@ == m,
            Ok(b) => if b.len() > MAX_INPUT_BYTES {
                r matches Err(RequestError::TooLarge)
            } else {
                r matches Ok(v) && v@ == b
            },
        },
        !request.is_base64 ==> match r {
            Ok(v) => v@ == encode_utf8(request.input@),
            Err(e) => e is TooLarge && encode_utf8(request.input@).len() > MAX_INPUT_BYTES,
        },
{
    proof {
        if !request.is_base64 {
            lemma_raw_text_request(*request);
        }
    }
    let bytes = if request.is_base64 {
        match base64_decode(request.input.as_str()) {
            Ok(v) => v,
            Err(e) => {
                return Err(RequestError::InvalidBase64(e));
            },
        }
    } else {
        copy_slice(request.input.as_str().as_bytes())
    };
    if bytes.len() > MAX_INPUT_BYTES {
        return Err(RequestError::TooLarge);
    }
    Ok(bytes)
}

/// `p` describes the parameter `name`.
pub open spec fn param_is(
    p: ParamInfo,
    name: Seq<char>,
    description: Seq<char>,
    default_value: Seq<char>,
    param_type: Seq<char>,
) -> bool {
    &&& p.name@ == name
    &&& p.description@ == description
    &&& p.default_value@ == default_value
    &&& p.param_type@ == param_type
}

/// `a` describes the algorithm `name`, with `n` parameters.
pub open spec fn info_is(a: AlgorithmInfo, name: Seq<char>, description: Seq<char>, n: nat) -> bool {
    &&& a.name@ == name
    &&& a.description@ == description
    &&& a.configurable_params@.len() == n
}

/// The algorithms that the pipeline offers, with their tunable parameters.
pub open spec fn is_algorithm_list(r: Seq<AlgorithmInfo>) -> bool {
    &&& r.len() == 5
    &&& info_is(
        r[0],
        "Markov Chain"@,
        "First-order Markov chain probability model. Analyzes symbol transition probabilities and computes source entropy. Used as a preprocessing analysis stage."@,
        1,
    )
    &&& param_is(
        r[0].configurable_params@[0],
        "order"@,
        "Order of the Markov chain (currently only 1 supported)"@,
        "1"@,
        "integer"@,
    )
    &&& info_is(
        r[1],
        "LZ77"@,
        "Sliding window dictionary compression. Finds repeated sequences and replaces them with (offset, length, next_symbol) triples. Used by DEFLATE, gzip, and PKZIP."@,
        2,
    )
    &&& param_is(
        r[1].configurable_params@[0],
        "window_size"@,
        "Size of the search window in bytes"@,
        "4096"@,
        "integer"@,
    )
    &&& param_is(
        r[1].configurable_params@[1],
        "lookahead_size"@,
        "Size of the lookahead buffer in bytes"@,
        "18"@,
        "integer"@,
    )
    &&& info_is(
        r[2],
        "LZMA"@,
        "Lempel-Ziv-Markov chain Algorithm (simplified). Uses large dictionaries and probability-based modeling. Core algorithm behind 7-Zip's .7z format."@,
        2,
    )
    &&& param_is(
        r[2].configurable_params@[0],
        "dictionary_size"@,
        "Dictionary size in bytes"@,
        "65536"@,
        "integer"@,
    )
    &&& param_is(
        r[2].configurable_params@[1],
        "min_match_length"@,
        "Minimum match length to use a back-reference"@,
        "3"@,
        "integer"@,
    )
    &&& info_is(
        r[3],
        "Huffman (Layer 1)"@,
        "Huffman entropy encoding — first pass. Builds an optimal prefix-free code based on symbol frequencies. Core of PKZIP/DEFLATE."@,
        0,
    )
    &&& info_is(
        r[4],
        "Huffman (Layer 2)"@,
        "Second Huffman pass applied to the output of Layer 1. Demonstrates multi-stage entropy coding for further compression of structured data."@,
        0,
    )
}

fn param(name: &str, description: &str, default_value: &str, param_type: &str) -> (p: ParamInfo)
    ensures
        param_is(p, name@, description@, default_value@, param_type@),
{
    ParamInfo {
        name: name.to_owned(),
        description: description.to_owned(),
        default_value: default_value.to_owned(),
        param_type: param_type.to_owned(),
    }
}

fn info(name: &str, description: &str, configurable_params: Vec<ParamInfo>) -> (a: AlgorithmInfo)
    ensures
        info_is(a, name@, description@, configurable_params@.len()),
        a.configurable_params@ == configurable_params@,
{
    AlgorithmInfo { name: name.to_owned(), description: description.to_owned(), configurable_params }
}

/// The algorithms that the pipeline offers, with their tunable parameters.
pub fn list_algorithms() -> (r: Vec<AlgorithmInfo>)
    ensures
        is_algorithm_list(r@),
{
    let mut r: Vec<AlgorithmInfo> = Vec::new();
    let mut markov: Vec<ParamInfo> = Vec::new();
    markov.push(param("order", "Order of the Markov chain (currently only 1 supported)", "1", "integer"));
    r.push(info(
        "Markov Chain",
        "First-order Markov chain probability model. Analyzes symbol transition probabilities and computes source entropy. Used as a preprocessing analysis stage.",
        markov,
    ));
    let mut lz77: Vec<ParamInfo> = Vec::new();
    lz77.push(param("window_size", "Size of the search window in bytes", "4096", "integer"));
    lz77.push(param("lookahead_size", "Size of the lookahead buffer in bytes", "18", "integer"));
    r.push(info(
        "LZ77",
        "Sliding window dictionary compression. Finds repeated sequences and replaces them with (offset, length, next_symbol) triples. Used by DEFLATE, gzip, and PKZIP.",
        lz77,
    ));
    let mut lzma: Vec<ParamInfo> = Vec::new();
    lzma.push(param("dictionary_size", "Dictionary size in bytes", "65536", "integer"));
    lzma.push(param("min_match_length", "Minimum match length to use a back-reference", "3", "integer"));
    r.push(info(
        "LZMA",
        "Lempel-Ziv-Markov chain Algorithm (simplified). Uses large dictionaries and probability-based modeling. Core algorithm behind 7-Zip's .7z format.",
        lzma,
    ));
    r.push(info(
        "Huffman (Layer 1)",
        "Huffman entropy encoding — first pass. Builds an optimal prefix-free code based on symbol frequencies. Core of PKZIP/DEFLATE.",
        Vec::new(),
    ));
    r.push(info(
        "Huffman (Layer 2)",
        "Second Huffman pass applied to the output of Layer 1. Demonstrates multi-stage entropy coding for further compression of structured data.",
        Vec::new(),
    ));
    r
}

} // verus!
