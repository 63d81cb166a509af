use vstd::prelude::*;

use super::{AlgorithmStep, CompressedData, CompressionAlgorithm, CompressionResult, Metadata, StepState};
use crate::bytes::copy_range;

verus! {

/// LZ77 sliding window compression algorithm.
///
/// Produces a stream of (offset, length, next_symbol) triples by finding
/// repeated sequences in a sliding window over the input data.
#[derive(Debug, Clone)]
pub struct Lz77Compressor {
    /// Size of the search window (how far back to look for matches).
    pub window_size: usize,
    /// Size of the lookahead buffer.
    pub lookahead_size: usize,
}

/// A single LZ77 token: either a literal or a back-reference.
#[derive(Debug, Clone, Copy, PartialEq, Eq)]
pub struct Lz77Token {
    pub offset: usize,
    pub length: usize,
    pub next_char: Option<u8>,
}

/// The length of the common prefix of `data[a..]` and `data[b..]`, compared over at most `n` bytes.
pub open spec fn common_len(data: Seq<u8>, a: int, b: int, n: nat) -> nat
    decreases n,
{
    if n == 0 {
        0
    } else if data[a] == data[b] {
        1 + common_len(data, a + 1, b + 1, (n - 1) as nat)
    } else {
        0
    }
}

/// `common_len` is at most `n`, and the compared bytes agree up to it.
pub proof fn lemma_common_len(data: Seq<u8>, a: int, b: int, n: nat)
    ensures
        common_len(data, a, b, n) <= n,
        forall|j: int| a <= j < a + common_len(data, a, b, n) ==> #[trigger] data[j] == data[j - a + b],
    decreases n,
{
    if n > 0 && data[a] == data[b] {
        lemma_common_len(data, a + 1, b + 1, (n - 1) as nat);
        assert forall|j: int| a <= j < a + common_len(data, a, b, n) implies #[trigger] data[j]
            == data[j - a + b] by {
            if j > a {
                assert(data[j] == data[j - (a + 1) + (b + 1)]);
            }
        }
    }
}

/// Bytes that agree over `m <= n` places make a common prefix of at least `m`.
pub proof fn lemma_common_len_at_least(data: Seq<u8>, a: int, b: int, n: nat, m: nat)
    requires
        m <= n,
        forall|j: int| 0 <= j < m ==> #[trigger] data[a + j] == data[b + j],
    ensures
        common_len(data, a, b, n) >= m,
    decreases m,
{
    if m > 0 {
        assert(data[a + 0] == data[b + 0]);
        assert forall|j: int| 0 <= j < m - 1 implies #[trigger] data[(a + 1) + j] == data[(b + 1) + j] by {
            assert(data[a + (j + 1)] == data[b + (j + 1)]);
        }
        lemma_common_len_at_least(data, a + 1, b + 1, (n - 1) as nat, (m - 1) as nat);
    }
}

pub open spec fn min_int(a: int, b: int) -> int {
    if a <= b {
        a
    } else {
        b
    }
}

/// The 4-byte record of a token: offset (16 bits, little-endian), length (8 bits) and the
/// next byte (0 where there is none).
pub open spec fn token_record(t: Lz77Token) -> Seq<u8> {
    seq![
        (t.offset as u16) as u8,
        ((t.offset as u16) >> 8u16) as u8,
        t.length as u8,
        match t.next_char {
            Some(c) => c,
            None => 0u8,
        },
    ]
}

/// The byte stream of a token sequence: one 4-byte record per token.
pub open spec fn encode_token_seq(tokens: Seq<Lz77Token>) -> Seq<u8>
    decreases tokens.len(),
{
    if tokens.len() == 0 {
        Seq::empty()
    } else {
        encode_token_seq(tokens.drop_last()) + token_record(tokens.last())
    }
}

/// The token that a 4-byte record stands for: a fourth byte 0 after a match means that the
/// match has no next byte.
pub open spec fn record_token(r: Seq<u8>) -> Lz77Token {
    Lz77Token {
        offset: (r[0] as u16 | ((r[1] as u16) << 8u16)) as usize,
        length: r[2] as usize,
        next_char: if r[2] == 0 || r[3] != 0 {
            Some(r[3])
        } else {
            None
        },
    }
}

/// A token that its record can carry: a literal has its byte, and the next byte of a match
/// is not 0, which the record keeps for "no next byte".
pub open spec fn record_safe(t: Lz77Token) -> bool {
    &&& t.length == 0 ==> t.next_char is Some
    &&& t.length > 0 ==> t.next_char != Some(0u8)
}

/// The tokens read back from a byte stream: one per whole 4-byte record; trailing bytes are ignored.
pub open spec fn decode_token_seq(data: Seq<u8>) -> Seq<Lz77Token>
    decreases data.len(),
{
    if data.len() < 4 {
        Seq::empty()
    } else {
        seq![record_token(data.take(4))] + decode_token_seq(data.skip(4))
    }
}

/// `out` extended by `length` bytes, each copied from `offset` bytes before it.
pub open spec fn lz_copy(out: Seq<u8>, offset: nat, length: nat) -> Seq<u8>
    decreases length,
{
    if length == 0 {
        out
    } else {
        let o = lz_copy(out, offset, (length - 1) as nat);
        o.push(o[out.len() - offset + length - 1])
    }
}

/// The output of one token appended to `out`.
pub open spec fn apply_token(out: Seq<u8>, t: Lz77Token) -> Seq<u8> {
    let copied = if t.length > 0 && t.offset > 0 {
        lz_copy(out, t.offset as nat, t.length as nat)
    } else {
        out
    };
    match t.next_char {
        Some(c) => copied.push(c),
        None => copied,
    }
}

/// The bytes that a token sequence expands to.
pub open spec fn expand_tokens(tokens: Seq<Lz77Token>) -> Seq<u8>
    decreases tokens.len(),
{
    if tokens.len() == 0 {
        Seq::empty()
    } else {
        apply_token(expand_tokens(tokens.drop_last()), tokens.last())
    }
}

/// Every back-reference of the token sequence points into the output produced before it.
pub open spec fn tokens_valid(tokens: Seq<Lz77Token>) -> bool
    decreases tokens.len(),
{
    if tokens.len() == 0 {
        true
    } else {
        let t = tokens.last();
        &&& tokens_valid(tokens.drop_last())
        &&& (t.length > 0 && t.offset > 0 ==> t.offset <= expand_tokens(tokens.drop_last()).len())
    }
}

impl Lz77Compressor {
    /// The first window position searched for a match at `position`.
    pub open spec fn window_start(&self, position: int) -> int {
        if position >= self.window_size {
            position - self.window_size
        } else {
            0
        }
    }

    /// The end of the lookahead buffer at `position`.
    pub open spec fn lookahead_end(&self, data: Seq<u8>, position: int) -> int {
        min_int(position + self.lookahead_size, data.len() as int)
    }

    /// The length of the match between the window at `start` and the lookahead at
    /// `position`; it never reaches past `position` or the lookahead end.
    pub open spec fn match_length_at(&self, data: Seq<u8>, position: int, start: int) -> nat {
        common_len(
            data,
            start,
            position,
            min_int(self.lookahead_end(data, position) - position, position - start) as nat,
        )
    }

    /// The best (offset, length) among the window positions before `upto`: the longest,
    /// and among equally long the earliest; `(0, 0)` when none matches.
    pub open spec fn best_match_upto(&self, data: Seq<u8>, position: int, upto: int) -> (nat, nat)
        decreases upto,
    {
        if upto <= self.window_start(position) || upto <= 0 {
            (0, 0)
        } else {
            let (o, l) = self.best_match_upto(data, position, upto - 1);
            let len = self.match_length_at(data, position, upto - 1);
            if len > l {
                ((position - (upto - 1)) as nat, len)
            } else {
                (o, l)
            }
        }
    }

    /// The (offset, length) of the longest match for `position`.
    pub open spec fn longest_match(&self, data: Seq<u8>, position: int) -> (nat, nat) {
        self.best_match_upto(data, position, position)
    }

    /// The token emitted at `position`: the longest match, then the byte after it. A
    /// literal carries the byte at `position`; a match that ends the data, or is followed
    /// by the byte 0, carries none, and that 0 starts the next token.
    pub open spec fn token_at(&self, data: Seq<u8>, position: int) -> Lz77Token {
        let (offset, length) = self.longest_match(data, position);
        Lz77Token {
            offset: offset as usize,
            length: length as usize,
            next_char: if length == 0 {
                Some(data[position])
            } else if position + length < data.len() && data[position + length] != 0 {
                Some(data[position + length])
            } else {
                None
            },
        }
    }

    /// How far the scan advances past a token.
    pub open spec fn advance(t: Lz77Token) -> nat {
        if t.length > 0 {
            (t.length + (if t.next_char is Some {
                1int
            } else {
                0int
            })) as nat
        } else {
            1
        }
    }

    /// The positions at which tokens are emitted, scanning from `position`.
    pub open spec fn token_positions(&self, data: Seq<u8>, position: int) -> Seq<int>
        decreases (if position < data.len() {
            data.len() - position
        } else {
            0
        }),
    {
        if position < 0 || position >= data.len() {
            Seq::empty()
        } else {
            seq![position] + self.token_positions(
                data,
                position + Self::advance(self.token_at(data, position)),
            )
        }
    }

    /// The tokens of `data`.
    pub open spec fn tokens(&self, data: Seq<u8>) -> Seq<Lz77Token> {
        self.token_positions(data, 0).map_values(|p: int| self.token_at(data, p))
    }

    /// `step` records the token emitted at `position` as step number `index + 1`.
    pub open spec fn is_step(&self, data: Seq<u8>, index: int, position: int, step: AlgorithmStep) -> bool {
        let t = self.token_at(data, position);
        &&& step.step_number == index + 1
        &&& step.state matches StepState::Lz77Match {
            position: p,
            offset,
            length,
            next_char,
            window,
            lookahead,
        } && {
            &&& p == position
            &&& offset == t.offset
            &&& length == t.length
            &&& next_char == t.next_char
            &&& window@ == data.subrange(self.window_start(position), position)
            &&& lookahead@ == data.subrange(position, self.lookahead_end(data, position))
        }
    }

    /// The inputs that the scan handles without overflowing the lookahead end.
    pub open spec fn scan_accepts(&self, data: Seq<u8>) -> bool {
        data.len() + self.lookahead_size <= usize::MAX + 1
    }

    pub fn new(window_size: usize, lookahead_size: usize) -> (c: Self)
        ensures
            c.window_size == window_size,
            c.lookahead_size == lookahead_size,
    {
        Self { window_size, lookahead_size }
    }

    /// The length of the match at `start`, found by comparing byte by byte.
    fn match_length(&self, data: &[u8], position: usize, start: usize, match_end: usize) -> (length: usize)
        requires
            start < position < data@.len(),
            match_end == self.lookahead_end(data@, position as int),
        ensures
            length == self.match_length_at(data@, position as int, start as int),
    {
        let ghost cap = min_int(match_end - position, position - start) as nat;
        let mut length: usize = 0;
        loop
            invariant_except_break
                start < position < data@.len(),
                match_end == self.lookahead_end(data@, position as int),
                position <= match_end <= data@.len(),
                length <= cap,
                cap <= match_end - position,
                cap <= position - start,
                cap == match_end - position || cap == position - start,
                start + length < position,
                common_len(data@, start as int, position as int, cap) == length + common_len(
                    data@,
                    start + length,
                    position + length,
                    (cap - length) as nat,
                ),
            ensures
                length == common_len(data@, start as int, position as int, cap),
            decreases cap - length,
        {
            if position + length >= match_end {
                assert(length == cap);
                break;
            }
            if data[start + length] != data[position + length] {
                break;
            }
            length += 1;
            if start + length >= position {
                assert(length == cap);
                assert(common_len(data@, start + length, position + length, 0) == 0);
                break;
            }
        }
        length
    }

    /// Find the longest match in the search window for the current lookahead position.
    fn find_longest_match(&self, data: &[u8], position: usize) -> (r: (usize, usize))
        requires
            position < data@.len(),
            self.scan_accepts(data@),
        ensures
            r.0 == self.longest_match(data@, position as int).0,
            r.1 == self.longest_match(data@, position as int).1,
    {
        let window_start = position.saturating_sub(self.window_size);
        let match_end = if position + self.lookahead_size < data.len() {
            position + self.lookahead_size
        } else {
            data.len()
        };
        let mut best_offset: usize = 0;
        let mut best_length: usize = 0;
        let mut start = window_start;
        while start < position
            invariant
                window_start == self.window_start(position as int),
                window_start <= start <= position < data@.len(),
                match_end == self.lookahead_end(data@, position as int),
                best_offset == self.best_match_upto(data@, position as int, start as int).0,
                best_length == self.best_match_upto(data@, position as int, start as int).1,
                best_length <= data@.len(),
            decreases position - start,
        {
            let length = self.match_length(data, position, start, match_end);
            proof {
                lemma_common_len(
                    data@,
                    start as int,
                    position as int,
                    min_int(match_end - position, position - start) as nat,
                );
            }
            if length > best_length {
                best_length = length;
                best_offset = position - start;
            }
            start += 1;
        }
        (best_offset, best_length)
    }

    /// The best match found so far lies in the window, does not reach past `position`
    /// or the lookahead end, and its bytes agree with the lookahead.
    pub proof fn lemma_best_match(&self, data: Seq<u8>, position: int, upto: int)
        requires
            0 <= position < data.len(),
            upto <= position,
        ensures
            ({
                let (o, l) = self.best_match_upto(data, position, upto);
                &&& l <= self.lookahead_end(data, position) - position
                &&& l <= o
                &&& l > 0 ==> 1 <= o <= position - self.window_start(position)
                &&& l == 0 ==> o == 0
                &&& forall|j: int| position <= j < position + l ==> #[trigger] data[j] == data[j - o]
            }),
        decreases upto,
    {
        if upto <= self.window_start(position) || upto <= 0 {
        } else {
            self.lemma_best_match(data, position, upto - 1);
            let start = upto - 1;
            let cap = min_int(self.lookahead_end(data, position) - position, position - start) as nat;
            lemma_common_len(data, start, position, cap);
            let len = self.match_length_at(data, position, start);
            if len > self.best_match_upto(data, position, upto - 1).1 {
                assert forall|j: int| position <= j < position + len implies #[trigger] data[j]
                    == data[j - (position - start)] by {
                    let k = j - position + start;
                    assert(start <= k < start + len);
                    assert(data[k] == data[k - start + position]);
                }
            }
        }
    }

    /// Compress input data and return tokens along with step-by-step state.
    pub fn compress_to_tokens(&self, data: &[u8]) -> (r: (Vec<Lz77Token>, Vec<AlgorithmStep>))
        requires
            self.scan_accepts(data@),
        ensures
            r.0@ == self.tokens(data@),
            r.1@.len() == r.0@.len(),
            forall|i: int|
                0 <= i < r.1@.len() ==> self.is_step(
                    data@,
                    i,
                    self.token_positions(data@, 0)[i],
                    #[trigger] r.1@[i],
                ),
    {
        let mut tokens: Vec<Lz77Token> = Vec::new();
        let mut steps: Vec<AlgorithmStep> = Vec::new();
        let mut position: usize = 0;
        let mut step_number: usize = 0;
        let ghost mut ps: Seq<int> = Seq::empty();
        while position < data.len()
            invariant
                self.scan_accepts(data@),
                position <= data@.len(),
                ps + self.token_positions(data@, position as int) == self.token_positions(data@, 0),
                tokens@ == ps.map_values(|p: int| self.token_at(data@, p)),
                steps@.len() == ps.len(),
                step_number == ps.len(),
                ps.len() <= position,
                forall|i: int| 0 <= i < steps@.len() ==> self.is_step(data@, i, ps[i], #[trigger] steps@[i]),
            decreases data.len() - position,
        {
            let (offset, length) = self.find_longest_match(data, position);
            proof {
                self.lemma_best_match(data@, position as int, position as int);
            }
            let next_char = if length == 0 {
                Some(data[position])
            } else if position + length < data.len() && data[position + length] != 0 {
                Some(data[position + length])
            } else {
                None
            };
            let token = Lz77Token { offset, length, next_char };
            let window_start = position.saturating_sub(self.window_size);
            let window = copy_range(data, window_start, position);
            let lookahead_end = if position + self.lookahead_size < data.len() {
                position + self.lookahead_size
            } else {
                data.len()
            };
            let lookahead = copy_range(data, position, lookahead_end);
            step_number += 1;
            let step = AlgorithmStep {
                step_number,
                state: StepState::Lz77Match { position, offset, length, next_char, window, lookahead },
            };
            proof {
                assert(token == self.token_at(data@, position as int));
                assert(self.is_step(data@, ps.len() as int, position as int, step));
            }
            steps.push(step);
            tokens.push(token);
            let ghost old_ps = ps;
            proof {
                ps = ps.push(position as int);
                assert(ps + self.token_positions(data@, position + Self::advance(token)) =~= old_ps
                    + self.token_positions(data@, position as int));
                assert(tokens@ =~= ps.map_values(|p: int| self.token_at(data@, p)));
            }
            if length > 0 {
                position += length + if next_char.is_some() {
                    1
                } else {
                    0
                };
            } else {
                position += 1;
            }
        }
        proof {
            assert(ps =~= self.token_positions(data@, 0));
        }
        (tokens, steps)
    }

    /// Encode tokens into a byte stream: 2 bytes offset (LE), 1 byte length, 1 byte next char.
    fn encode_tokens(&self, tokens: &[Lz77Token]) -> (output: Vec<u8>)
        ensures
            output@ == encode_token_seq(tokens@),
    {
        let mut output: Vec<u8> = Vec::new();
        let mut k: usize = 0;
        while k < tokens.len()
            invariant
                k <= tokens@.len(),
                output@ == encode_token_seq(tokens@.take(k as int)),
            decreases tokens.len() - k,
        {
            let token = tokens[k];
            let offset = token.offset as u16;
            output.push(offset as u8);
            output.push((offset >> 8) as u8);
            output.push(token.length as u8);
            output.push(
                match token.next_char {
                    Some(c) => c,
                    None => 0,
                },
            );
            proof {
                assert(tokens@.take(k + 1).drop_last() =~= tokens@.take(k as int));
                assert(output@ =~= encode_token_seq(tokens@.take(k + 1)));
            }
            k += 1;
        }
        assert(tokens@.take(tokens@.len() as int) =~= tokens@);
        output
    }

    /// Decode a byte stream back into tokens.
    fn decode_tokens(&self, data: &[u8]) -> (tokens: Vec<Lz77Token>)
        ensures
            tokens@ == decode_token_seq(data@),
    {
        let mut tokens: Vec<Lz77Token> = Vec::new();
        let mut i: usize = 0;
        assert(data@.skip(0) =~= data@);
        while i < data.len() && data.len() - i > 3
            invariant
                i <= data@.len(),
                tokens@ + decode_token_seq(data@.skip(i as int)) == decode_token_seq(data@),
            decreases data.len() - i,
        {
            let offset = (data[i] as u16 | ((data[i + 1] as u16) << 8)) as usize;
            let length = data[i + 2] as usize;
            let next_byte = data[i + 3];
            let next_char = if length == 0 || next_byte != 0 {
                Some(next_byte)
            } else {
                None
            };
            let token = Lz77Token { offset, length, next_char };
            proof {
                let rest = data@.skip(i as int);
                assert(rest.take(4) =~= data@.subrange(i as int, i + 4));
                assert(token == record_token(rest.take(4)));
                assert(rest.skip(4) =~= data@.skip(i + 4));
            }
            tokens.push(token);
            i += 4;
        }
        proof {
            assert(data@.skip(i as int).len() < 4);
        }
        assert(tokens@ + decode_token_seq(data@.skip(i as int)) =~= tokens@);
        tokens
    }

    /// Decompress tokens back to original data.
    fn decompress_tokens(&self, tokens: &[Lz77Token]) -> (output: Vec<u8>)
        requires
            tokens_valid(tokens@),
        ensures
            output@ == expand_tokens(tokens@),
    {
        let mut output: Vec<u8> = Vec::new();
        let mut k: usize = 0;
        while k < tokens.len()
            invariant
                k <= tokens@.len(),
                tokens_valid(tokens@),
                output@ == expand_tokens(tokens@.take(k as int)),
            decreases tokens.len() - k,
        {
            let token = tokens[k];
            proof {
                lemma_tokens_valid_prefix(tokens@, k + 1);
                assert(tokens@.take(k + 1).drop_last() =~= tokens@.take(k as int));
            }
            let ghost before = output@;
            if token.length > 0 && token.offset > 0 {
                let start = output.len() - token.offset;
                let mut i: usize = 0;
                while i < token.length
                    invariant
                        0 < token.offset <= before.len(),
                        start == before.len() - token.offset,
                        i <= token.length,
                        output@ == lz_copy(before, token.offset as nat, i as nat),
                        output@.len() == before.len() + i,
                    decreases token.length - i,
                {
                    let current_len = output.len();
                    assert(start + i < current_len);
                    let byte = output[start + i];
                    output.push(byte);
                    i += 1;
                }
            }
            match token.next_char {
                Some(ch) => {
                    output.push(ch);
                },
                None => {},
            }
            k += 1;
        }
        assert(tokens@.take(tokens@.len() as int) =~= tokens@);
        output
    }

    /// Every token of `data` fits its 4-byte record: offsets fit 16 bits and lengths 8 bits.
    pub open spec fn encodable(&self, data: Seq<u8>) -> bool {
        forall|i: int|
            0 <= i < self.tokens(data).len() ==> {
                let t = #[trigger] self.tokens(data)[i];
                &&& t.offset <= 0xFFFF
                &&& t.length <= 0xFF
            }
    }

    /// The bytes that `compress` makes of `input`.
    pub open spec fn output(&self, input: Seq<u8>) -> Seq<u8> {
        encode_token_seq(self.tokens(input))
    }

    /// `data`, `metadata` and `steps` are what `compress` reports for `input`: the encoded
    /// tokens, the parameters and tokens, and one step per token.
    pub open spec fn compressed_as(
        &self,
        input: Seq<u8>,
        data: Seq<u8>,
        metadata: Metadata,
        steps: Seq<AlgorithmStep>,
    ) -> bool {
        &&& data == self.output(input)
        &&& metadata matches Metadata::Lz77 { window_size, lookahead_size, token_count, tokens }
            && window_size == self.window_size && lookahead_size == self.lookahead_size
            && token_count == self.tokens(input).len() && tokens@ == self.tokens(input)
        &&& steps.len() == self.tokens(input).len()
        &&& forall|i: int|
            0 <= i < steps.len() ==> self.is_step(
                input,
                i,
                self.token_positions(input, 0)[i],
                #[trigger] steps[i],
            )
    }
}

/// A prefix of a valid token sequence is valid.
pub proof fn lemma_tokens_valid_prefix(tokens: Seq<Lz77Token>, k: int)
    requires
        tokens_valid(tokens),
        0 <= k <= tokens.len(),
    ensures
        tokens_valid(tokens.take(k)),
    decreases tokens.len(),
{
    if k < tokens.len() {
        assert(tokens.drop_last().take(k) =~= tokens.take(k));
        lemma_tokens_valid_prefix(tokens.drop_last(), k);
    } else {
        assert(tokens.take(k) =~= tokens);
    }
}

impl CompressionAlgorithm for Lz77Compressor {
    open spec fn compress_accepts(&self, input: Seq<u8>) -> bool {
        self.scan_accepts(input)
    }

    open spec fn decompress_accepts(&self, data: Seq<u8>) -> bool {
        tokens_valid(decode_token_seq(data))
    }

    fn compress(&self, input: &[u8]) -> (r: CompressionResult)
        ensures
            self.compressed_as(input@, r.compressed_data.data@, r.compressed_data.metadata, r.steps@),
    {
        let (tokens, steps) = self.compress_to_tokens(input);
        let encoded = self.encode_tokens(tokens.as_slice());
        let token_count = tokens.len();
        let original_size = input.len();
        let compressed_size = encoded.len();
        CompressionResult {
            original_size,
            compressed_size,
            compressed_data: CompressedData {
                data: encoded,
                metadata: Metadata::Lz77 {
                    window_size: self.window_size,
                    lookahead_size: self.lookahead_size,
                    token_count,
                    tokens,
                },
            },
            steps,
        }
    }

    fn decompress(&self, compressed: &CompressedData) -> (r: Result<Vec<u8>, String>)
        ensures
            r matches Ok(v) && v@ == expand_tokens(decode_token_seq(compressed.data@)),
    {
        let tokens = self.decode_tokens(compressed.data.as_slice());
        Ok(self.decompress_tokens(tokens.as_slice()))
    }

    fn name(&self) -> (n: &str)
        ensures
            n@ == "LZ77 Sliding Window"@,
    {
        "LZ77 Sliding Window"
    }
}

/// Decoding splits at a record boundary.
proof fn lemma_decode_append(a: Seq<u8>, b: Seq<u8>)
    requires
        a.len() % 4 == 0,
    ensures
        decode_token_seq(a + b) == decode_token_seq(a) + decode_token_seq(b),
    decreases a.len(),
{
    if a.len() == 0 {
        assert(a + b =~= b);
        assert(decode_token_seq(a) =~= Seq::<Lz77Token>::empty());
        assert(decode_token_seq(a) + decode_token_seq(b) =~= decode_token_seq(b));
    } else {
        lemma_decode_append(a.skip(4), b);
        assert((a + b).take(4) =~= a.take(4));
        assert((a + b).skip(4) =~= a.skip(4) + b);
        assert(decode_token_seq(a + b) =~= decode_token_seq(a) + decode_token_seq(b));
    }
}

/// A token that fits its record reads back unchanged.
proof fn lemma_record_roundtrip(t: Lz77Token)
    requires
        t.offset <= 0xFFFF,
        t.length <= 0xFF,
        record_safe(t),
    ensures
        record_token(token_record(t)) == t,
{
    let o = t.offset as u16;
    assert(((o as u8) as u16 | ((((o >> 8u16) as u8) as u16) << 8u16)) == o) by (bit_vector);
    let r = token_record(t);
    assert(r[0] == o as u8);
    assert(r[1] == (o >> 8u16) as u8);
}

/// The record sequence of tokens that fit their records reads back unchanged.
proof fn lemma_decode_encode(ts: Seq<Lz77Token>)
    requires
        forall|i: int|
            0 <= i < ts.len() ==> {
                let t = #[trigger] ts[i];
                &&& t.offset <= 0xFFFF
                &&& t.length <= 0xFF
                &&& record_safe(t)
            },
    ensures
        decode_token_seq(encode_token_seq(ts)) == ts,
        encode_token_seq(ts).len() == 4 * ts.len(),
    decreases ts.len(),
{
    if ts.len() > 0 {
        let init = ts.drop_last();
        assert forall|i: int| 0 <= i < init.len() implies {
            let t = #[trigger] init[i];
            &&& t.offset <= 0xFFFF
            &&& t.length <= 0xFF
            &&& record_safe(t)
        } by {
            assert(init[i] == ts[i]);
        }
        lemma_decode_encode(init);
        let rec = token_record(ts.last());
        lemma_decode_append(encode_token_seq(init), rec);
        lemma_record_roundtrip(ts[ts.len() - 1]);
        assert(rec.take(4) =~= rec);
        assert(decode_token_seq(rec.skip(4)) =~= Seq::<Lz77Token>::empty());
        assert(decode_token_seq(rec) =~= seq![ts.last()]);
        assert(init + seq![ts.last()] =~= ts);
    } else {
        assert(decode_token_seq(Seq::empty()) =~= Seq::<Lz77Token>::empty());
    }
}

/// Copying `m` bytes from `o` back reproduces `data` when the bytes repeat at distance `o`.
proof fn lemma_copy_repeats(data: Seq<u8>, p: int, o: int, m: nat)
    requires
        1 <= o <= p,
        p + m <= data.len(),
        forall|j: int| p <= j < p + m ==> #[trigger] data[j] == data[j - o],
    ensures
        lz_copy(data.take(p), o as nat, m) == data.take(p + m),
    decreases m,
{
    if m > 0 {
        lemma_copy_repeats(data, p, o, (m - 1) as nat);
        let prev = data.take(p + m - 1);
        assert(prev[p - o + m - 1] == data[p + m - 1 - o]);
        assert(data[p + m - 1] == data[(p + m - 1) - o]);
        assert(prev.push(data[p + m - 1]) =~= data.take(p + m));
    }
}

impl Lz77Compressor {
    /// Expanding the tokens scanned from `position` after a prefix that expands to
    /// `data[..position]` yields `data`.
    proof fn lemma_expand_from(&self, data: Seq<u8>, position: int, pre: Seq<Lz77Token>)
        requires
            0 <= position <= data.len() <= usize::MAX,
            expand_tokens(pre) == data.take(position),
            tokens_valid(pre),
        ensures
            ({
                let all = pre + self.token_positions(data, position).map_values(
                    |p: int| self.token_at(data, p),
                );
                &&& expand_tokens(all) == data
                &&& tokens_valid(all)
            }),
            forall|i: int|
                0 <= i < self.token_positions(data, position).len() ==> {
                    let t = self.token_at(data, #[trigger] self.token_positions(data, position)[i]);
                    record_safe(t)
                },
        decreases data.len() - position,
    {
        let rest = self.token_positions(data, position).map_values(|p: int| self.token_at(data, p));
        if position == data.len() {
            assert(pre + rest =~= pre);
            assert(data.take(position) =~= data);
        } else {
            let t = self.token_at(data, position);
            let (o, l) = self.longest_match(data, position);
            self.lemma_best_match(data, position, position);
            let next = position + Self::advance(t);
            let copied = if t.length > 0 && t.offset > 0 {
                lz_copy(data.take(position), t.offset as nat, t.length as nat)
            } else {
                data.take(position)
            };
            if l > 0 {
                lemma_copy_repeats(data, position, o as int, l);
                assert(copied == data.take(position + l));
            } else {
                assert(copied == data.take(position));
            }
            assert(apply_token(data.take(position), t) =~= data.take(next));
            let pre2 = pre.push(t);
            assert(pre2.drop_last() =~= pre);
            assert(expand_tokens(pre2) == data.take(next));
            assert(tokens_valid(pre2));
            self.lemma_expand_from(data, next, pre2);
            let rest2 = self.token_positions(data, next).map_values(|p: int| self.token_at(data, p));
            assert(pre + rest =~= pre2 + rest2);
            assert forall|i: int|
                0 <= i < self.token_positions(data, position).len() implies {
                    let u = self.token_at(data, #[trigger] self.token_positions(data, position)[i]);
                    record_safe(u)
                } by {
                if i > 0 {
                    assert(self.token_positions(data, position)[i] == self.token_positions(
                        data,
                        next,
                    )[i - 1]);
                }
            }
        }
    }
}

/// Decoding the tokens of any input gives back the input: every back-reference points into
/// what was already produced, the tokens expand to the input, and each token is one that its
/// record can carry.
pub proof fn lemma_lz77_tokens_roundtrip(c: Lz77Compressor, data: Seq<u8>)
    requires
        data.len() <= usize::MAX,
    ensures
        tokens_valid(c.tokens(data)),
        expand_tokens(c.tokens(data)) == data,
        forall|i: int| 0 <= i < c.tokens(data).len() ==> record_safe(#[trigger] c.tokens(data)[i]),
{
    let pre = Seq::<Lz77Token>::empty();
    assert(expand_tokens(pre) =~= data.take(0));
    c.lemma_expand_from(data, 0, pre);
    let ts = c.tokens(data);
    assert(pre + ts =~= ts);
    assert forall|i: int| 0 <= i < ts.len() implies record_safe(#[trigger] ts[i]) by {
        assert(ts[i] == c.token_at(data, c.token_positions(data, 0)[i]));
    }
}

/// Decompressing what `compress` produced gives back the input, whenever its offsets fit
/// 16 bits and its lengths 8 bits (the fields of the 4-byte records).
pub proof fn lemma_lz77_roundtrip(c: Lz77Compressor, data: Seq<u8>)
    requires
        data.len() <= usize::MAX,
        c.encodable(data),
    ensures
        c.decompress_accepts(c.output(data)),
        expand_tokens(decode_token_seq(c.output(data))) == data,
{
    lemma_lz77_tokens_roundtrip(c, data);
    let ts = c.tokens(data);
    assert forall|i: int| 0 <= i < ts.len() implies {
        let t = #[trigger] ts[i];
        &&& t.offset <= 0xFFFF
        &&& t.length <= 0xFF
        &&& record_safe(t)
    } by {}
    lemma_decode_encode(ts);
}

impl Lz77Compressor {
    /// The scan emits tokens only at positions inside the data.
    proof fn lemma_positions_inside(&self, data: Seq<u8>, position: int)
        ensures
            forall|i: int|
                0 <= i < self.token_positions(data, position).len() ==> 0 <= #[trigger] self.token_positions(
                    data,
                    position,
                )[i] < data.len(),
        decreases (if position < data.len() {
            data.len() - position
        } else {
            0
        }),
    {
        if 0 <= position < data.len() {
            let next = position + Self::advance(self.token_at(data, position));
            self.lemma_positions_inside(data, next);
            assert forall|i: int|
                0 <= i < self.token_positions(data, position).len() implies 0
                    <= #[trigger] self.token_positions(data, position)[i] < data.len() by {
                if i > 0 {
                    assert(self.token_positions(data, position)[i] == self.token_positions(
                        data,
                        next,
                    )[i - 1]);
                }
            }
        }
    }
}

/// A window of at most 65535 bytes and a lookahead of at most 255 bytes keep every token
/// within its record's fields, so compressing then decompressing gives back every input.
pub proof fn lemma_lz77_params_roundtrip(c: Lz77Compressor, data: Seq<u8>)
    requires
        data.len() <= usize::MAX,
        c.window_size <= 0xFFFF,
        c.lookahead_size <= 0xFF,
    ensures
        c.encodable(data),
        c.decompress_accepts(c.output(data)),
        expand_tokens(decode_token_seq(c.output(data))) == data,
{
    c.lemma_positions_inside(data, 0);
    assert forall|i: int| 0 <= i < c.tokens(data).len() implies {
        let t = #[trigger] c.tokens(data)[i];
        &&& t.offset <= 0xFFFF
        &&& t.length <= 0xFF
    } by {
        let p = c.token_positions(data, 0)[i];
        c.lemma_best_match(data, p, p);
    }
    lemma_lz77_roundtrip(c, data);
}

impl Lz77Compressor {
    /// Among the window starts below `upto`, none matches longer than the best so far, and
    /// every start before the chosen one matches shorter.
    proof fn lemma_best_is_longest(&self, data: Seq<u8>, position: int, upto: int)
        requires
            0 <= position < data.len(),
            upto <= position,
        ensures
            ({
                let (o, l) = self.best_match_upto(data, position, upto);
                &&& forall|s: int|
                    self.window_start(position) <= s < upto ==> #[trigger] self.match_length_at(
                        data,
                        position,
                        s,
                    ) <= l
                &&& l > 0 ==> forall|s: int|
                    self.window_start(position) <= s < position - o ==> #[trigger] self.match_length_at(
                        data,
                        position,
                        s,
                    ) < l
            }),
        decreases upto,
    {
        if upto <= self.window_start(position) || upto <= 0 {
        } else {
            self.lemma_best_is_longest(data, position, upto - 1);
            self.lemma_best_match(data, position, upto - 1);
        }
    }
}

/// Each LZ77 token takes a longest match: at the position `p` where token `i` starts, no window
/// start `s` (from `p - window_size`, at least 0, up to `p`) has a copy of more bytes than the
/// token's length that ends by `p` and lies within the lookahead; the token's bytes repeat
/// those `offset` places back; and no earlier window start matches as many bytes. A match
/// carries the byte after it unless it ends the data or that byte is 0.
pub proof fn lemma_lz77_longest_match(c: Lz77Compressor, data: Seq<u8>, i: int)
    requires
        0 <= i < c.tokens(data).len(),
    ensures
        ({
            let p = c.token_positions(data, 0)[i];
            let t = c.tokens(data)[i];
            let ws = if p >= c.window_size { p - c.window_size } else { 0 };
            let end = if p + c.lookahead_size <= data.len() { p + c.lookahead_size } else { data.len() as int };
            &&& 0 <= p < data.len()
            &&& forall|s: int, m: int|
                ws <= s < p && 0 <= m && s + m <= p && p + m <= end && #[trigger] data.subrange(s, s + m)
                    == data.subrange(p, p + m) ==> m <= t.length
            &&& t.length > 0 ==> {
                &&& 1 <= t.offset <= p - ws
                &&& t.length <= t.offset
                &&& p + t.length <= end
                &&& forall|j: int| 0 <= j < t.length ==> #[trigger] data[p + j] == data[p - t.offset + j]
                &&& forall|s: int|
                    ws <= s < p - t.offset ==> #[trigger] data.subrange(s, s + t.length)
                        != data.subrange(p, p + t.length)
            }
            &&& t.length == 0 ==> t.offset == 0 && t.next_char == Some(data[p])
            &&& t.length > 0 ==> t.next_char == (if p + t.length < data.len() && data[p + t.length]
                != 0 {
                Some(data[p + t.length])
            } else {
                None
            })
        }),
{
    c.lemma_positions_inside(data, 0);
    let p = c.token_positions(data, 0)[i];
    assert(c.tokens(data)[i] == c.token_at(data, p));
    let (o, l) = c.longest_match(data, p);
    c.lemma_best_match(data, p, p);
    c.lemma_best_is_longest(data, p, p);
    let ws = c.window_start(p);
    let end = c.lookahead_end(data, p);
    assert forall|s: int, m: int|
        ws <= s < p && 0 <= m && s + m <= p && p + m <= end && #[trigger] data.subrange(s, s + m)
            == data.subrange(p, p + m) implies m <= l by {
        assert forall|j: int| 0 <= j < m implies #[trigger] data[s + j] == data[p + j] by {
            assert(data.subrange(s, s + m)[j] == data.subrange(p, p + m)[j]);
        }
        let cap = min_int(end - p, p - s) as nat;
        lemma_common_len_at_least(data, s, p, cap, m as nat);
        assert(c.match_length_at(data, p, s) >= m);
    }
    assert forall|j: int| 0 <= j < l implies #[trigger] data[p + j] == data[p - o + j] by {
        assert(data[p + j] == data[(p + j) - o]);
    }
    if l > 0 {
        assert forall|s: int| ws <= s < p - o implies #[trigger] data.subrange(s, s + l)
            != data.subrange(p, p + l) by {
            if data.subrange(s, s + l) == data.subrange(p, p + l) {
                assert forall|j: int| 0 <= j < l implies #[trigger] data[s + j] == data[p + j] by {
                    assert(data.subrange(s, s + l)[j] == data.subrange(p, p + l)[j]);
                }
                let cap = min_int(end - p, p - s) as nat;
                lemma_common_len_at_least(data, s, p, cap, l);
                assert(c.match_length_at(data, p, s) >= l);
            }
        }
    }
}

impl Default for Lz77Compressor {
    fn default() -> (c: Self)
        ensures
            c.window_size == 4096,
            c.lookahead_size == 18,
    {
        Self { window_size: 4096, lookahead_size: 18 }
    }
}

} // verus!
