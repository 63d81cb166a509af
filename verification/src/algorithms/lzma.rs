use vstd::prelude::*;

use super::lz77::{common_len, lemma_common_len, lemma_common_len_at_least, lz_copy, min_int};
use super::{AlgorithmStep, CompressedData, CompressionAlgorithm, CompressionResult, Metadata, StepState};
use crate::text::{hex_byte_upper, hex_byte_upper_chars};

verus! {

/// Simplified LZMA-style compressor for educational purposes.
///
/// Implements key concepts from LZMA:
/// - Large dictionary for back-references
/// - Literal/match decision with a minimum match length
/// - Byte-aligned token output
///
/// This is not a full LZMA implementation, but an educational model of its core ideas.
#[derive(Debug, Clone)]
pub struct LzmaCompressor {
    /// Dictionary size (search window for finding matches).
    pub dictionary_size: usize,
    /// Minimum match length to consider a back-reference.
    pub min_match_length: usize,
    /// Maximum match length to encode.
    pub max_match_length: usize,
}

/// The token types of the LZMA-style encoding.
#[derive(Debug, Clone, Copy, PartialEq, Eq)]
pub enum LzmaToken {
    Literal(u8),
    Match { offset: usize, length: usize },
}

/// Why a byte stream is not a valid LZMA-style token stream.
#[derive(Debug, Clone, Copy, PartialEq, Eq)]
pub enum LzmaDecodeError {
    /// Fewer than 4 bytes: no room for the header.
    TooShort,
    /// A literal flag is the last byte.
    TruncatedLiteral,
    /// A match flag is followed by fewer than 4 bytes.
    TruncatedMatch,
    /// A flag byte other than 0 and 1.
    InvalidFlag(u8),
}

impl LzmaDecodeError {
    /// The message reported for this error.
    pub open spec fn text(self) -> Seq<char> {
        match self {
            LzmaDecodeError::TooShort => "Data too short for header"@,
            LzmaDecodeError::TruncatedLiteral => "Unexpected end of data (literal)"@,
            LzmaDecodeError::TruncatedMatch => "Unexpected end of data (match)"@,
            LzmaDecodeError::InvalidFlag(f) => "Invalid token flag: 0x"@ + hex_byte_upper_chars(f),
        }
    }

    pub fn message(&self) -> (s: String)
        ensures
            s@ == self.text(),
    {
        match self {
            LzmaDecodeError::TooShort => "Data too short for header".to_owned(),
            LzmaDecodeError::TruncatedLiteral => "Unexpected end of data (literal)".to_owned(),
            LzmaDecodeError::TruncatedMatch => "Unexpected end of data (match)".to_owned(),
            LzmaDecodeError::InvalidFlag(f) => {
                let mut s = "Invalid token flag: 0x".to_owned();
                let h = hex_byte_upper(*f);
                s.append(h.as_str());
                s
            },
        }
    }
}

/// The bytes of one token: a flag (0 literal, 1 match), then the literal byte or the
/// match offset and length as 16-bit little-endian numbers.
pub open spec fn lzma_token_bytes(t: LzmaToken) -> Seq<u8> {
    match t {
        LzmaToken::Literal(b) => seq![0u8, b],
        LzmaToken::Match { offset, length } => seq![
            1u8,
            (offset as u16) as u8,
            ((offset as u16) >> 8u16) as u8,
            (length as u16) as u8,
            ((length as u16) >> 8u16) as u8,
        ],
    }
}

/// The bytes of a token sequence.
pub open spec fn lzma_encode_tokens(tokens: Seq<LzmaToken>) -> Seq<u8>
    decreases tokens.len(),
{
    if tokens.len() == 0 {
        Seq::empty()
    } else {
        lzma_token_bytes(tokens[0]) + lzma_encode_tokens(tokens.skip(1))
    }
}

proof fn lemma_encode_push(tokens: Seq<LzmaToken>, t: LzmaToken)
    ensures
        lzma_encode_tokens(tokens.push(t)) == lzma_encode_tokens(tokens) + lzma_token_bytes(t),
    decreases tokens.len(),
{
    if tokens.len() == 0 {
        assert(tokens.push(t).skip(1) =~= Seq::<LzmaToken>::empty());
        assert(lzma_encode_tokens(Seq::<LzmaToken>::empty()) =~= Seq::<u8>::empty());
        assert(tokens.push(t)[0] == t);
        assert(lzma_encode_tokens(tokens.push(t)) =~= lzma_token_bytes(t) + Seq::<u8>::empty());
        assert(lzma_encode_tokens(tokens) =~= Seq::<u8>::empty());
        assert(lzma_encode_tokens(tokens) + lzma_token_bytes(t) =~= lzma_token_bytes(t));
    } else {
        lemma_encode_push(tokens.skip(1), t);
        assert(tokens.push(t).skip(1) =~= tokens.skip(1).push(t));
        assert(lzma_encode_tokens(tokens.push(t)) =~= lzma_encode_tokens(tokens) + lzma_token_bytes(t));
    }
}

/// The number of matches among `tokens`.
pub open spec fn count_matches(tokens: Seq<LzmaToken>) -> nat
    decreases tokens.len(),
{
    if tokens.len() == 0 {
        0
    } else {
        count_matches(tokens.drop_last()) + (if tokens.last() is Match {
            1nat
        } else {
            0nat
        })
    }
}

/// The number of literals among `tokens`.
pub open spec fn count_literals(tokens: Seq<LzmaToken>) -> nat
    decreases tokens.len(),
{
    if tokens.len() == 0 {
        0
    } else {
        count_literals(tokens.drop_last()) + (if tokens.last() is Literal {
            1nat
        } else {
            0nat
        })
    }
}

/// The 16-bit little-endian number at `s[i..i + 2]`.
pub open spec fn le_u16(s: Seq<u8>, i: int) -> u16 {
    s[i] as u16 | ((s[i + 1] as u16) << 8u16)
}

/// The 32-bit little-endian number at `s[i..i + 4]`.
pub open spec fn le_u32(s: Seq<u8>, i: int) -> u32 {
    s[i] as u32 | ((s[i + 1] as u32) << 8u32) | ((s[i + 2] as u32) << 16u32) | ((s[i + 3] as u32)
        << 24u32)
}

/// The 4 little-endian bytes of `v`.
pub open spec fn u32_le_bytes(v: u32) -> Seq<u8> {
    seq![v as u8, (v >> 8u32) as u8, (v >> 16u32) as u8, (v >> 24u32) as u8]
}

/// The tokens read from a token stream (after the header), or the first error.
pub open spec fn lzma_decode_body(s: Seq<u8>) -> Result<Seq<LzmaToken>, LzmaDecodeError>
    decreases s.len(),
{
    if s.len() == 0 {
        Ok(Seq::empty())
    } else if s[0] == 0 {
        if s.len() < 2 {
            Err(LzmaDecodeError::TruncatedLiteral)
        } else {
            match lzma_decode_body(s.skip(2)) {
                Ok(ts) => Ok(seq![LzmaToken::Literal(s[1])] + ts),
                Err(e) => Err(e),
            }
        }
    } else if s[0] == 1 {
        if s.len() < 5 {
            Err(LzmaDecodeError::TruncatedMatch)
        } else {
            match lzma_decode_body(s.skip(5)) {
                Ok(ts) => Ok(
                    seq![LzmaToken::Match { offset: le_u16(s, 1) as usize, length: le_u16(s, 3) as usize }]
                        + ts,
                ),
                Err(e) => Err(e),
            }
        }
    } else {
        Err(LzmaDecodeError::InvalidFlag(s[0]))
    }
}

/// A token stream (after the header) that reads to its end: each flag is 0 with one byte
/// after it, or 1 with four bytes after it.
pub open spec fn lzma_stream_well_formed(s: Seq<u8>) -> bool
    decreases s.len(),
{
    if s.len() == 0 {
        true
    } else if s[0] == 0 {
        s.len() >= 2 && lzma_stream_well_formed(s.skip(2))
    } else if s[0] == 1 {
        s.len() >= 5 && lzma_stream_well_formed(s.skip(5))
    } else {
        false
    }
}

/// The header's dictionary size and the tokens of a byte stream, or the first error.
pub open spec fn lzma_decode(data: Seq<u8>) -> Result<(u32, Seq<LzmaToken>), LzmaDecodeError> {
    if data.len() < 4 {
        Err(LzmaDecodeError::TooShort)
    } else {
        match lzma_decode_body(data.skip(4)) {
            Ok(ts) => Ok((le_u32(data, 0), ts)),
            Err(e) => Err(e),
        }
    }
}

/// The output of one token appended to `out`.
pub open spec fn lzma_apply(out: Seq<u8>, t: LzmaToken) -> Seq<u8> {
    match t {
        LzmaToken::Literal(b) => out.push(b),
        LzmaToken::Match { offset, length } => lz_copy(out, offset as nat, length as nat),
    }
}

/// The bytes that a token sequence expands to.
pub open spec fn lzma_expand(tokens: Seq<LzmaToken>) -> Seq<u8>
    decreases tokens.len(),
{
    if tokens.len() == 0 {
        Seq::empty()
    } else {
        lzma_apply(lzma_expand(tokens.drop_last()), tokens.last())
    }
}

/// Every match of the token sequence copies from output produced before it.
pub open spec fn lzma_tokens_valid(tokens: Seq<LzmaToken>) -> bool
    decreases tokens.len(),
{
    if tokens.len() == 0 {
        true
    } else {
        &&& lzma_tokens_valid(tokens.drop_last())
        &&& match tokens.last() {
            LzmaToken::Literal(_) => true,
            LzmaToken::Match { offset, length } => offset <= lzma_expand(tokens.drop_last()).len()
                && (length > 0 ==> offset > 0),
        }
    }
}

impl LzmaCompressor {
    /// The first dictionary position searched for a match at `position`.
    pub open spec fn dict_start(&self, position: int) -> int {
        if position >= self.dictionary_size {
            position - self.dictionary_size
        } else {
            0
        }
    }

    /// The longest match length allowed at `position`.
    pub open spec fn max_len(&self, data: Seq<u8>, position: int) -> int {
        min_int(self.max_match_length as int, data.len() - position)
    }

    /// The length of the match of the dictionary at `start` against `position`; it never
    /// reaches past `position`.
    pub open spec fn match_length_at(&self, data: Seq<u8>, position: int, start: int) -> nat {
        common_len(data, start, position, min_int(self.max_len(data, position), position - start) as nat)
    }

    /// The best (offset, length) among the dictionary positions before `upto` whose match
    /// reaches the minimum length: the longest, and among equally long the earliest.
    pub open spec fn best_match_upto(&self, data: Seq<u8>, position: int, upto: int) -> (nat, nat)
        decreases upto,
    {
        if upto <= self.dict_start(position) || upto <= 0 {
            (0, 0)
        } else {
            let (o, l) = self.best_match_upto(data, position, upto - 1);
            let len = self.match_length_at(data, position, upto - 1);
            if len >= self.min_match_length && len > l {
                ((position - (upto - 1)) as nat, len)
            } else {
                (o, l)
            }
        }
    }

    /// The match chosen at `position`, if any reaches the minimum length.
    pub open spec fn best_match(&self, data: Seq<u8>, position: int) -> Option<(nat, nat)> {
        let (o, l) = self.best_match_upto(data, position, position);
        if l >= self.min_match_length {
            Some((o, l))
        } else {
            None
        }
    }

    /// The token emitted at `position`.
    pub open spec fn token_at(&self, data: Seq<u8>, position: int) -> LzmaToken {
        match self.best_match(data, position) {
            Some((o, l)) => LzmaToken::Match { offset: o as usize, length: l as usize },
            None => LzmaToken::Literal(data[position]),
        }
    }

    /// How far the scan advances past a token.
    pub open spec fn advance(t: LzmaToken) -> nat {
        match t {
            LzmaToken::Literal(_) => 1,
            LzmaToken::Match { length, .. } => if length > 0 {
                length as nat
            } else {
                1
            },
        }
    }

    /// The positions at which tokens are emitted, scanning from `position`.
    pub open spec fn token_positions(&self, data: Seq<u8>, position: int) -> Seq<int>
        decreases (if position < data.len() {
            data.len() - position
        } else {
            0
        }),
    {
        if position < 0 || position >= data.len() {
            Seq::empty()
        } else {
            seq![position] + self.token_positions(
                data,
                position + Self::advance(self.token_at(data, position)),
            )
        }
    }

    /// The tokens of `data`.
    pub open spec fn tokens(&self, data: Seq<u8>) -> Seq<LzmaToken> {
        self.token_positions(data, 0).map_values(|p: int| self.token_at(data, p))
    }

    /// `step` records the token emitted at `position` as step number `index + 1`.
    pub open spec fn is_step(&self, data: Seq<u8>, index: int, position: int, step: AlgorithmStep) -> bool {
        &&& step.step_number == index + 1
        &&& step.state matches StepState::LzmaLiteral {
            position: p,
            byte_value,
            is_match,
            dictionary_size,
            match_offset,
            match_length,
        } && {
            &&& p == position
            &&& byte_value == data[position]
            &&& dictionary_size == self.dictionary_size
            &&& match self.token_at(data, position) {
                LzmaToken::Literal(_) => !is_match && match_offset is None && match_length is None,
                LzmaToken::Match { offset, length } => is_match && match_offset == Some(offset)
                    && match_length == Some(length),
            }
        }
    }

    /// The inputs that the scan finishes on: a zero minimum match length makes it stall.
    pub open spec fn scan_accepts(&self, data: Seq<u8>) -> bool {
        data.len() == 0 || self.min_match_length >= 1
    }

    pub fn new(dictionary_size: usize, min_match_length: usize, max_match_length: usize) -> (c: Self)
        ensures
            c.dictionary_size == dictionary_size,
            c.min_match_length == min_match_length,
            c.max_match_length == max_match_length,
    {
        Self { dictionary_size, min_match_length, max_match_length }
    }

    /// The best match found so far lies in the dictionary, does not reach past `position`
    /// or the maximum length, and its bytes agree with the input at `position`.
    pub proof fn lemma_best_match(&self, data: Seq<u8>, position: int, upto: int)
        requires
            0 <= position < data.len(),
            upto <= position,
        ensures
            ({
                let (o, l) = self.best_match_upto(data, position, upto);
                &&& l <= self.max_len(data, position)
                &&& l <= o
                &&& l > 0 ==> 1 <= o <= position - self.dict_start(position)
                &&& l == 0 ==> o == 0
                &&& forall|j: int| position <= j < position + l ==> #[trigger] data[j] == data[j - o]
            }),
        decreases upto,
    {
        if upto <= self.dict_start(position) || upto <= 0 {
        } else {
            self.lemma_best_match(data, position, upto - 1);
            let start = upto - 1;
            let cap = min_int(self.max_len(data, position), position - start) as nat;
            lemma_common_len(data, start, position, cap);
            let len = self.match_length_at(data, position, start);
            if len >= self.min_match_length && len > self.best_match_upto(data, position, upto - 1).1 {
                assert forall|j: int| position <= j < position + len implies #[trigger] data[j]
                    == data[j - (position - start)] by {
                    let k = j - position + start;
                    assert(start <= k < start + len);
                    assert(data[k] == data[k - start + position]);
                }
            }
        }
    }

    /// Find the best match in the dictionary.
    fn find_best_match(&self, data: &[u8], position: usize) -> (r: Option<(usize, usize)>)
        requires
            position < data@.len(),
        ensures
            match self.best_match(data@, position as int) {
                Some((o, l)) => r == Some((o as usize, l as usize)),
                None => r is None,
            },
    {
        let dict_start = position.saturating_sub(self.dictionary_size);
        let max_len = if self.max_match_length < data.len() - position {
            self.max_match_length
        } else {
            data.len() - position
        };
        let mut best_offset: usize = 0;
        let mut best_length: usize = 0;
        let mut start = dict_start;
        while start < position
            invariant
                dict_start == self.dict_start(position as int),
                dict_start <= start <= position < data@.len(),
                max_len == self.max_len(data@, position as int),
                best_offset == self.best_match_upto(data@, position as int, start as int).0,
                best_length == self.best_match_upto(data@, position as int, start as int).1,
            decreases position - start,
        {
            let ghost cap = min_int(max_len as int, position - start) as nat;
            let mut length: usize = 0;
            while length < max_len && start + length < position && data[start + length] == data[position + length]
                invariant
                    start < position < data@.len(),
                    max_len <= data@.len() - position,
                    cap == min_int(max_len as int, position - start),
                    length <= cap,
                    common_len(data@, start as int, position as int, cap) == length + common_len(
                        data@,
                        start + length,
                        position + length,
                        (cap - length) as nat,
                    ),
                decreases cap - length,
            {
                length += 1;
            }
            proof {
                if length < cap {
                    assert(common_len(data@, start + length, position + length, (cap - length) as nat) == 0);
                }
                lemma_common_len(data@, start as int, position as int, cap);
            }
            if length >= self.min_match_length && length > best_length {
                best_length = length;
                best_offset = position - start;
            }
            start += 1;
        }
        if best_length >= self.min_match_length {
            Some((best_offset, best_length))
        } else {
            None
        }
    }

    /// Compress data into tokens with step recording.
    fn compress_to_tokens(&self, data: &[u8]) -> (r: (Vec<LzmaToken>, Vec<AlgorithmStep>))
        requires
            self.scan_accepts(data@),
        ensures
            r.0@ == self.tokens(data@),
            r.1@.len() == r.0@.len(),
            forall|i: int|
                0 <= i < r.1@.len() ==> self.is_step(
                    data@,
                    i,
                    self.token_positions(data@, 0)[i],
                    #[trigger] r.1@[i],
                ),
    {
        let mut tokens: Vec<LzmaToken> = Vec::new();
        let mut steps: Vec<AlgorithmStep> = Vec::new();
        let mut position: usize = 0;
        let mut step_number: usize = 0;
        let ghost mut ps: Seq<int> = Seq::empty();
        while position < data.len()
            invariant
                self.scan_accepts(data@),
                position <= data@.len(),
                ps + self.token_positions(data@, position as int) == self.token_positions(data@, 0),
                tokens@ == ps.map_values(|p: int| self.token_at(data@, p)),
                steps@.len() == ps.len(),
                step_number == ps.len(),
                ps.len() <= position,
                forall|i: int| 0 <= i < steps@.len() ==> self.is_step(data@, i, ps[i], #[trigger] steps@[i]),
            decreases data.len() - position,
        {
            step_number += 1;
            proof {
                self.lemma_best_match(data@, position as int, position as int);
            }
            let token;
            let step;
            match self.find_best_match(data, position) {
                Some((offset, length)) => {
                    step = AlgorithmStep {
                        step_number,
                        state: StepState::LzmaLiteral {
                            position,
                            byte_value: data[position],
                            is_match: true,
                            dictionary_size: self.dictionary_size,
                            match_offset: Some(offset),
                            match_length: Some(length),
                        },
                    };
                    token = LzmaToken::Match { offset, length };
                },
                None => {
                    step = AlgorithmStep {
                        step_number,
                        state: StepState::LzmaLiteral {
                            position,
                            byte_value: data[position],
                            is_match: false,
                            dictionary_size: self.dictionary_size,
                            match_offset: None,
                            match_length: None,
                        },
                    };
                    token = LzmaToken::Literal(data[position]);
                },
            }
            proof {
                assert(token == self.token_at(data@, position as int));
                assert(self.is_step(data@, ps.len() as int, position as int, step));
            }
            steps.push(step);
            tokens.push(token);
            let ghost old_ps = ps;
            proof {
                ps = ps.push(position as int);
                assert(ps + self.token_positions(data@, position + Self::advance(token)) =~= old_ps
                    + self.token_positions(data@, position as int));
                assert(tokens@ =~= ps.map_values(|p: int| self.token_at(data@, p)));
            }
            match token {
                LzmaToken::Match { length, .. } => {
                    position += length;
                },
                LzmaToken::Literal(_) => {
                    position += 1;
                },
            }
        }
        proof {
            assert(ps =~= self.token_positions(data@, 0));
        }
        (tokens, steps)
    }

    /// Encode tokens into a byte stream: the dictionary size as a 32-bit little-endian
    /// header, then each token's flag and data.
    fn encode_tokens(&self, tokens: &[LzmaToken]) -> (output: Vec<u8>)
        ensures
            output@ == u32_le_bytes(self.dictionary_size as u32) + lzma_encode_tokens(tokens@),
    {
        let mut output: Vec<u8> = Vec::new();
        let d = self.dictionary_size as u32;
        output.push(d as u8);
        output.push((d >> 8) as u8);
        output.push((d >> 16) as u8);
        output.push((d >> 24) as u8);
        let ghost header = output@;
        assert(header =~= u32_le_bytes(d));
        let mut k: usize = 0;
        while k < tokens.len()
            invariant
                k <= tokens@.len(),
                header == u32_le_bytes(d),
                d == self.dictionary_size as u32,
                output@ == header + lzma_encode_tokens(tokens@.take(k as int)),
            decreases tokens.len() - k,
        {
            let ghost before = output@;
            match tokens[k] {
                LzmaToken::Literal(byte) => {
                    output.push(0x00);
                    output.push(byte);
                },
                LzmaToken::Match { offset, length } => {
                    let o = offset as u16;
                    let l = length as u16;
                    output.push(0x01);
                    output.push(o as u8);
                    output.push((o >> 8) as u8);
                    output.push(l as u8);
                    output.push((l >> 8) as u8);
                },
            }
            proof {
                assert(output@ =~= before + lzma_token_bytes(tokens@[k as int]));
                lemma_encode_push(tokens@.take(k as int), tokens@[k as int]);
                assert(tokens@.take(k + 1) =~= tokens@.take(k as int).push(tokens@[k as int]));
            }
            k += 1;
        }
        assert(tokens@.take(tokens@.len() as int) =~= tokens@);
        output
    }

    /// Decode tokens from a byte stream.
    fn decode_tokens(data: &[u8]) -> (r: Result<(u32, Vec<LzmaToken>), LzmaDecodeError>)
        ensures
            match lzma_decode(data@) {
                Ok((d, ts)) => r matches Ok((d2, v)) && d2 == d && v@ == ts,
                Err(e) => r == Err::<(u32, Vec<LzmaToken>), LzmaDecodeError>(e),
            },
    {
        if data.len() < 4 {
            return Err(LzmaDecodeError::TooShort);
        }
        let dict_size = data[0] as u32 | ((data[1] as u32) << 8) | ((data[2] as u32) << 16) | ((
        data[3] as u32) << 24);
        let mut tokens: Vec<LzmaToken> = Vec::new();
        let mut i: usize = 4;
        assert(data@.skip(4) =~= data@.skip(i as int));
        while i < data.len()
            invariant
                4 <= i <= data@.len(),
                match lzma_decode_body(data@.skip(i as int)) {
                    Ok(ts) => lzma_decode_body(data@.skip(4)) == Ok::<Seq<LzmaToken>, LzmaDecodeError>(tokens@ + ts),
                    Err(e) => lzma_decode_body(data@.skip(4)) == Err::<Seq<LzmaToken>, LzmaDecodeError>(e),
                },
            decreases data.len() - i,
        {
            let ghost rest = data@.skip(i as int);
            let flag = data[i];
            i += 1;
            if flag == 0x00 {
                if i >= data.len() {
                    return Err(LzmaDecodeError::TruncatedLiteral);
                }
                let t = LzmaToken::Literal(data[i]);
                proof {
                    assert(rest.skip(2) =~= data@.skip(i + 1));
                    match lzma_decode_body(rest.skip(2)) {
                        Ok(ts) => {
                            assert(tokens@.push(t) + ts =~= tokens@ + (seq![t] + ts));
                        },
                        Err(e) => {},
                    }
                }
                tokens.push(t);
                i += 1;
            } else if flag == 0x01 {
                if i >= data.len() || data.len() - i <= 3 {
                    return Err(LzmaDecodeError::TruncatedMatch);
                }
                let offset = (data[i] as u16 | ((data[i + 1] as u16) << 8)) as usize;
                let length = (data[i + 2] as u16 | ((data[i + 3] as u16) << 8)) as usize;
                let t = LzmaToken::Match { offset, length };
                proof {
                    assert(rest.skip(5) =~= data@.skip(i + 4));
                    assert(t == LzmaToken::Match {
                        offset: le_u16(rest, 1) as usize,
                        length: le_u16(rest, 3) as usize,
                    });
                    match lzma_decode_body(rest.skip(5)) {
                        Ok(ts) => {
                            assert(tokens@.push(t) + ts =~= tokens@ + (seq![t] + ts));
                        },
                        Err(e) => {},
                    }
                }
                tokens.push(t);
                i += 4;
            } else {
                return Err(LzmaDecodeError::InvalidFlag(flag));
            }
        }
        proof {
            assert(data@.skip(i as int) =~= Seq::<u8>::empty());
            assert(tokens@ + Seq::<LzmaToken>::empty() =~= tokens@);
        }
        Ok((dict_size, tokens))
    }

    /// Decompress tokens back to original data.
    fn decompress_tokens(tokens: &[LzmaToken]) -> (output: Vec<u8>)
        requires
            lzma_tokens_valid(tokens@),
        ensures
            output@ == lzma_expand(tokens@),
    {
        let mut output: Vec<u8> = Vec::new();
        let mut k: usize = 0;
        while k < tokens.len()
            invariant
                k <= tokens@.len(),
                lzma_tokens_valid(tokens@),
                output@ == lzma_expand(tokens@.take(k as int)),
            decreases tokens.len() - k,
        {
            proof {
                lemma_lzma_valid_prefix(tokens@, k + 1);
                assert(tokens@.take(k + 1).drop_last() =~= tokens@.take(k as int));
            }
            let ghost before = output@;
            match tokens[k] {
                LzmaToken::Literal(byte) => {
                    output.push(byte);
                },
                LzmaToken::Match { offset, length } => {
                    let start = output.len() - offset;
                    let mut i: usize = 0;
                    while i < length
                        invariant
                            offset <= before.len(),
                            length > 0 ==> offset > 0,
                            start == before.len() - offset,
                            i <= length,
                            output@ == lz_copy(before, offset as nat, i as nat),
                            output@.len() == before.len() + i,
                        decreases length - i,
                    {
                        let current_len = output.len();
                        assert(start + i < current_len);
                        let byte = output[start + i];
                        output.push(byte);
                        i += 1;
                    }
                },
            }
            k += 1;
        }
        assert(tokens@.take(tokens@.len() as int) =~= tokens@);
        output
    }

    /// Every match of `data`'s tokens survives its record: offsets and lengths fit 16 bits.
    pub open spec fn encodable(&self, data: Seq<u8>) -> bool {
        forall|i: int|
            0 <= i < self.tokens(data).len() ==> match #[trigger] self.tokens(data)[i] {
                LzmaToken::Literal(_) => true,
                LzmaToken::Match { offset, length } => offset <= 0xFFFF && length <= 0xFFFF,
            }
    }

    /// The bytes that `compress` makes of `input`.
    pub open spec fn output(&self, input: Seq<u8>) -> Seq<u8> {
        u32_le_bytes(self.dictionary_size as u32) + lzma_encode_tokens(self.tokens(input))
    }

    /// `data`, `metadata` and `steps` are what `compress` reports for `input`: the header and
    /// encoded tokens, the parameters and token counts, and one step per token.
    pub open spec fn compressed_as(
        &self,
        input: Seq<u8>,
        data: Seq<u8>,
        metadata: Metadata,
        steps: Seq<AlgorithmStep>,
    ) -> bool {
        &&& data == self.output(input)
        &&& metadata matches Metadata::Lzma {
            dictionary_size,
            min_match_length,
            max_match_length,
            match_count,
            literal_count,
            total_tokens,
        } && dictionary_size == self.dictionary_size && min_match_length == self.min_match_length
            && max_match_length == self.max_match_length && match_count == count_matches(
            self.tokens(input),
        ) && literal_count == count_literals(self.tokens(input)) && total_tokens == self.tokens(
            input,
        ).len()
        &&& steps.len() == self.tokens(input).len()
        &&& forall|i: int|
            0 <= i < steps.len() ==> self.is_step(
                input,
                i,
                self.token_positions(input, 0)[i],
                #[trigger] steps[i],
            )
    }
}

/// A prefix of a valid token sequence is valid.
pub proof fn lemma_lzma_valid_prefix(tokens: Seq<LzmaToken>, k: int)
    requires
        lzma_tokens_valid(tokens),
        0 <= k <= tokens.len(),
    ensures
        lzma_tokens_valid(tokens.take(k)),
    decreases tokens.len(),
{
    if k < tokens.len() {
        assert(tokens.drop_last().take(k) =~= tokens.take(k));
        lemma_lzma_valid_prefix(tokens.drop_last(), k);
    } else {
        assert(tokens.take(k) =~= tokens);
    }
}

/// Counts the matches and literals among `tokens`.
fn count_token_kinds(tokens: &[LzmaToken]) -> (r: (usize, usize))
    ensures
        r.0 == count_matches(tokens@),
        r.1 == count_literals(tokens@),
{
    let mut matches: usize = 0;
    let mut literals: usize = 0;
    let mut k: usize = 0;
    while k < tokens.len()
        invariant
            k <= tokens@.len(),
            matches == count_matches(tokens@.take(k as int)),
            literals == count_literals(tokens@.take(k as int)),
            matches + literals == k,
        decreases tokens.len() - k,
    {
        assert(tokens@.take(k + 1).drop_last() =~= tokens@.take(k as int));
        match tokens[k] {
            LzmaToken::Match { .. } => {
                matches += 1;
            },
            LzmaToken::Literal(_) => {
                literals += 1;
            },
        }
        k += 1;
    }
    assert(tokens@.take(tokens@.len() as int) =~= tokens@);
    (matches, literals)
}

impl CompressionAlgorithm for LzmaCompressor {
    open spec fn compress_accepts(&self, input: Seq<u8>) -> bool {
        self.scan_accepts(input)
    }

    open spec fn decompress_accepts(&self, data: Seq<u8>) -> bool {
        match lzma_decode(data) {
            Ok((_, ts)) => lzma_tokens_valid(ts),
            Err(_) => true,
        }
    }

    fn compress(&self, input: &[u8]) -> (r: CompressionResult)
        ensures
            self.compressed_as(input@, r.compressed_data.data@, r.compressed_data.metadata, r.steps@),
    {
        let (tokens, steps) = self.compress_to_tokens(input);
        let encoded = self.encode_tokens(tokens.as_slice());
        let (match_count, literal_count) = count_token_kinds(tokens.as_slice());
        let total_tokens = tokens.len();
        let original_size = input.len();
        let compressed_size = encoded.len();
        CompressionResult {
            original_size,
            compressed_size,
            compressed_data: CompressedData {
                data: encoded,
                metadata: Metadata::Lzma {
                    dictionary_size: self.dictionary_size,
                    min_match_length: self.min_match_length,
                    max_match_length: self.max_match_length,
                    match_count,
                    literal_count,
                    total_tokens,
                },
            },
            steps,
        }
    }

    fn decompress(&self, compressed: &CompressedData) -> (r: Result<Vec<u8>, String>)
        ensures
            match lzma_decode(compressed.data@) {
                Ok((_, ts)) => r matches Ok(v) && v@ == lzma_expand(ts),
                Err(e) => r matches Err(msg) && msg@ == e.text(),
            },
    {
        match Self::decode_tokens(compressed.data.as_slice()) {
            Ok((_dict_size, tokens)) => Ok(Self::decompress_tokens(tokens.as_slice())),
            Err(e) => Err(e.message()),
        }
    }

    fn name(&self) -> (n: &str)
        ensures
            n@ == "LZMA-Style Dictionary Compression"@,
    {
        "LZMA-Style Dictionary Compression"
    }
}

/// The token stream of tokens whose matches fit 16 bits reads back unchanged.
proof fn lemma_decode_body_encode(ts: Seq<LzmaToken>)
    requires
        forall|i: int|
            0 <= i < ts.len() ==> match #[trigger] ts[i] {
                LzmaToken::Literal(_) => true,
                LzmaToken::Match { offset, length } => offset <= 0xFFFF && length <= 0xFFFF,
            },
    ensures
        lzma_decode_body(lzma_encode_tokens(ts)) == Ok::<Seq<LzmaToken>, LzmaDecodeError>(ts),
    decreases ts.len(),
{
    if ts.len() == 0 {
        assert(lzma_encode_tokens(ts) =~= Seq::<u8>::empty());
        assert(ts =~= Seq::<LzmaToken>::empty());
    } else {
        let rest = ts.skip(1);
        assert forall|i: int| 0 <= i < rest.len() implies match #[trigger] rest[i] {
            LzmaToken::Literal(_) => true,
            LzmaToken::Match { offset, length } => offset <= 0xFFFF && length <= 0xFFFF,
        } by {
            assert(rest[i] == ts[i + 1]);
        }
        lemma_decode_body_encode(rest);
        let b = lzma_token_bytes(ts[0]);
        let s = b + lzma_encode_tokens(rest);
        assert(lzma_encode_tokens(ts) == s);
        assert(seq![ts[0]] + rest =~= ts);
        match ts[0] {
            LzmaToken::Literal(x) => {
                assert(s.skip(2) =~= lzma_encode_tokens(rest));
                assert(s[0] == 0u8);
                assert(s[1] == x);
                assert(lzma_decode_body(s) == Ok::<Seq<LzmaToken>, LzmaDecodeError>(
                    seq![LzmaToken::Literal(x)] + rest,
                ));
            },
            LzmaToken::Match { offset, length } => {
                assert(s.skip(5) =~= lzma_encode_tokens(rest));
                let o = offset as u16;
                let l = length as u16;
                assert(((o as u8) as u16 | ((((o >> 8u16) as u8) as u16) << 8u16)) == o) by (bit_vector);
                assert(((l as u8) as u16 | ((((l >> 8u16) as u8) as u16) << 8u16)) == l) by (bit_vector);
                assert(s[0] == 1u8);
                assert(le_u16(s, 1) == o);
                assert(le_u16(s, 3) == l);
                assert(lzma_decode_body(s) == Ok::<Seq<LzmaToken>, LzmaDecodeError>(
                    seq![LzmaToken::Match { offset: o as usize, length: l as usize }] + rest,
                ));
            },
        }
    }
}

impl LzmaCompressor {
    /// Expanding the tokens scanned from `position` after a prefix that expands to
    /// `data[..position]` yields `data`.
    proof fn lemma_expand_from(&self, data: Seq<u8>, position: int, pre: Seq<LzmaToken>)
        requires
            0 <= position <= data.len() <= usize::MAX,
            self.scan_accepts(data),
            lzma_expand(pre) == data.take(position),
            lzma_tokens_valid(pre),
        ensures
            ({
                let all = pre + self.token_positions(data, position).map_values(
                    |p: int| self.token_at(data, p),
                );
                &&& lzma_expand(all) == data
                &&& lzma_tokens_valid(all)
            }),
        decreases data.len() - position,
    {
        let rest = self.token_positions(data, position).map_values(|p: int| self.token_at(data, p));
        if position == data.len() {
            assert(pre + rest =~= pre);
            assert(data.take(position) =~= data);
        } else {
            let t = self.token_at(data, position);
            self.lemma_best_match(data, position, position);
            let next = position + Self::advance(t);
            match self.best_match(data, position) {
                Some((o, l)) => {
                    lemma_copy_repeats(data, position, o as int, l);
                },
                None => {},
            }
            assert(lzma_apply(data.take(position), t) =~= data.take(next));
            let pre2 = pre.push(t);
            assert(pre2.drop_last() =~= pre);
            assert(lzma_expand(pre2) == data.take(next));
            assert(lzma_tokens_valid(pre2));
            self.lemma_expand_from(data, next, pre2);
            let rest2 = self.token_positions(data, next).map_values(|p: int| self.token_at(data, p));
            assert(pre + rest =~= pre2 + rest2);
        }
    }
}

/// Copying `m` bytes from `o` back reproduces `data` when the bytes repeat at distance `o`.
proof fn lemma_copy_repeats(data: Seq<u8>, p: int, o: int, m: nat)
    requires
        1 <= o <= p,
        p + m <= data.len(),
        forall|j: int| p <= j < p + m ==> #[trigger] data[j] == data[j - o],
    ensures
        lz_copy(data.take(p), o as nat, m) == data.take(p + m),
    decreases m,
{
    if m > 0 {
        lemma_copy_repeats(data, p, o, (m - 1) as nat);
        let prev = data.take(p + m - 1);
        assert(prev[p - o + m - 1] == data[p + m - 1 - o]);
        assert(data[p + m - 1] == data[(p + m - 1) - o]);
        assert(prev.push(data[p + m - 1]) =~= data.take(p + m));
    }
}

/// Decompressing what `compress` produced gives back the header's dictionary size and the
/// input, for every input whose matches fit their 16-bit fields.
pub proof fn lemma_lzma_roundtrip(c: LzmaCompressor, data: Seq<u8>)
    requires
        c.scan_accepts(data),
        c.encodable(data),
        data.len() <= usize::MAX,
    ensures
        lzma_decode(u32_le_bytes(c.dictionary_size as u32) + lzma_encode_tokens(c.tokens(data)))
            == Ok::<(u32, Seq<LzmaToken>), LzmaDecodeError>((c.dictionary_size as u32, c.tokens(data))),
        c.decompress_accepts(u32_le_bytes(c.dictionary_size as u32) + lzma_encode_tokens(c.tokens(data))),
        lzma_expand(c.tokens(data)) == data,
{
    let pre = Seq::<LzmaToken>::empty();
    assert(lzma_expand(pre) =~= data.take(0));
    c.lemma_expand_from(data, 0, pre);
    let ts = c.tokens(data);
    assert(pre + ts =~= ts);
    lemma_decode_body_encode(ts);
    let d = c.dictionary_size as u32;
    let all = u32_le_bytes(d) + lzma_encode_tokens(ts);
    assert(all.skip(4) =~= lzma_encode_tokens(ts));
    assert((d as u8) as u32 | (((d >> 8u32) as u8) as u32) << 8u32 | (((d >> 16u32) as u8) as u32)
        << 16u32 | (((d >> 24u32) as u8) as u32) << 24u32 == d) by (bit_vector);
    assert(le_u32(all, 0) == d);
}

/// A token stream decodes exactly when it is well formed, and what it decodes to encodes
/// back to the same bytes.
proof fn lemma_decode_body_reencodes(s: Seq<u8>)
    ensures
        lzma_decode_body(s) is Ok <==> lzma_stream_well_formed(s),
        lzma_decode_body(s) matches Ok(ts) ==> lzma_encode_tokens(ts) == s,
    decreases s.len(),
{
    if s.len() == 0 {
        assert(lzma_encode_tokens(Seq::<LzmaToken>::empty()) =~= s);
    } else if s[0] == 0 && s.len() >= 2 {
        lemma_decode_body_reencodes(s.skip(2));
        if let Ok(ts) = lzma_decode_body(s.skip(2)) {
            let all = seq![LzmaToken::Literal(s[1])] + ts;
            assert(all[0] == LzmaToken::Literal(s[1]));
            assert(all.skip(1) =~= ts);
            assert(lzma_encode_tokens(all) == lzma_token_bytes(all[0]) + lzma_encode_tokens(ts));
            assert(lzma_encode_tokens(all) =~= s);
        }
    } else if s[0] == 1 && s.len() >= 5 {
        lemma_decode_body_reencodes(s.skip(5));
        if let Ok(ts) = lzma_decode_body(s.skip(5)) {
            let o = le_u16(s, 1);
            let l = le_u16(s, 3);
            let (a, b, c, d) = (s[1], s[2], s[3], s[4]);
            assert(((a as u16 | ((b as u16) << 8u16)) as u8) == a && (((a as u16 | ((b as u16)
                << 8u16)) >> 8u16) as u8) == b) by (bit_vector);
            assert(((c as u16 | ((d as u16) << 8u16)) as u8) == c && (((c as u16 | ((d as u16)
                << 8u16)) >> 8u16) as u8) == d) by (bit_vector);
            let t = LzmaToken::Match { offset: o as usize, length: l as usize };
            let all = seq![t] + ts;
            assert(all[0] == t);
            assert(all.skip(1) =~= ts);
            assert(lzma_encode_tokens(all) == lzma_token_bytes(t) + lzma_encode_tokens(ts));
            assert(lzma_encode_tokens(all) =~= s);
        }
    }
}

/// A byte stream fails to decode exactly when it is shorter than its 4-byte header, or its
/// token stream breaks off inside a token or holds a flag other than 0 and 1. What it decodes
/// to is the header's little-endian dictionary size and tokens that, encoded behind that
/// header, give back the same bytes.
pub proof fn lemma_lzma_decode_reencodes(data: Seq<u8>)
    ensures
        lzma_decode(data) is Err <==> (data.len() < 4 || !lzma_stream_well_formed(data.skip(4))),
        lzma_decode(data) matches Ok((d, ts)) ==> d == le_u32(data, 0) && u32_le_bytes(d)
            + lzma_encode_tokens(ts) == data,
{
    if data.len() >= 4 {
        lemma_decode_body_reencodes(data.skip(4));
        if let Ok((d, ts)) = lzma_decode(data) {
            let (a, b, c, e) = (data[0], data[1], data[2], data[3]);
            assert(({
                let v = a as u32 | ((b as u32) << 8u32) | ((c as u32) << 16u32) | ((e as u32)
                    << 24u32);
                &&& v as u8 == a
                &&& (v >> 8u32) as u8 == b
                &&& (v >> 16u32) as u8 == c
                &&& (v >> 24u32) as u8 == e
            })) by (bit_vector);
            assert(u32_le_bytes(d) =~= data.take(4));
            assert(data.take(4) + data.skip(4) =~= data);
        }
    }
}

impl LzmaCompressor {
    /// The scan emits tokens only at positions inside the data.
    proof fn lemma_positions_inside(&self, data: Seq<u8>, position: int)
        ensures
            forall|i: int|
                0 <= i < self.token_positions(data, position).len() ==> 0 <= #[trigger] self.token_positions(
                    data,
                    position,
                )[i] < data.len(),
        decreases (if position < data.len() {
            data.len() - position
        } else {
            0
        }),
    {
        if 0 <= position < data.len() {
            let next = position + Self::advance(self.token_at(data, position));
            self.lemma_positions_inside(data, next);
            assert forall|i: int|
                0 <= i < self.token_positions(data, position).len() implies 0
                    <= #[trigger] self.token_positions(data, position)[i] < data.len() by {
                if i > 0 {
                    assert(self.token_positions(data, position)[i] == self.token_positions(
                        data,
                        next,
                    )[i - 1]);
                }
            }
        }
    }

    /// Among the dictionary starts below `upto`, each match reaching the minimum length is no
    /// longer than the best so far, and every start before the chosen one matches shorter.
    proof fn lemma_best_is_longest(&self, data: Seq<u8>, position: int, upto: int)
        requires
            0 <= position < data.len(),
            upto <= position,
        ensures
            ({
                let (o, l) = self.best_match_upto(data, position, upto);
                &&& forall|s: int|
                    self.dict_start(position) <= s < upto ==> #[trigger] self.match_length_at(
                        data,
                        position,
                        s,
                    ) <= l || self.match_length_at(data, position, s) < self.min_match_length
                &&& l > 0 ==> l >= self.min_match_length && forall|s: int|
                    self.dict_start(position) <= s < position - o ==> #[trigger] self.match_length_at(
                        data,
                        position,
                        s,
                    ) < l
            }),
        decreases upto,
    {
        if upto <= self.dict_start(position) || upto <= 0 {
        } else {
            self.lemma_best_is_longest(data, position, upto - 1);
            self.lemma_best_match(data, position, upto - 1);
        }
    }
}

/// Each LZMA token takes a longest match. At the position `p` where token `i` starts, with the
/// dictionary from `p - dictionary_size` (at least 0) up to `p` and matches of at most
/// `max_match_length` bytes within the data: a match token copies bytes that repeat `offset`
/// places back, is at least `min_match_length` long, no dictionary start has a longer match
/// ending by `p`, and no earlier start matches as many bytes; a literal token carries the
/// byte at `p`, and then no dictionary start has a match of `min_match_length` bytes.
pub proof fn lemma_lzma_longest_match(c: LzmaCompressor, data: Seq<u8>, i: int)
    requires
        0 <= i < c.tokens(data).len(),
    ensures
        ({
            let p = c.token_positions(data, 0)[i];
            let ds = if p >= c.dictionary_size { p - c.dictionary_size } else { 0 };
            let cap = if c.max_match_length <= data.len() - p { c.max_match_length as int } else { data.len() - p };
            &&& 0 <= p < data.len()
            &&& match c.tokens(data)[i] {
                LzmaToken::Match { offset, length } => {
                    &&& length >= c.min_match_length
                    &&& length > 0 ==> 1 <= offset <= p - ds && length <= offset && length <= cap
                    &&& forall|j: int| 0 <= j < length ==> #[trigger] data[p + j] == data[p - offset + j]
                    &&& forall|s: int, m: int|
                        ds <= s < p && 0 <= m <= cap && s + m <= p && #[trigger] data.subrange(s, s + m)
                            == data.subrange(p, p + m) ==> m <= length
                    &&& length > 0 ==> forall|s: int|
                        ds <= s < p - offset ==> #[trigger] data.subrange(s, s + length)
                            != data.subrange(p, p + length)
                },
                LzmaToken::Literal(b) => {
                    &&& b == data[p]
                    &&& forall|s: int, m: int|
                        ds <= s < p && 0 <= m <= cap && s + m <= p && #[trigger] data.subrange(s, s + m)
                            == data.subrange(p, p + m) ==> m < c.min_match_length
                },
            }
        }),
{
    c.lemma_positions_inside(data, 0);
    let p = c.token_positions(data, 0)[i];
    assert(c.tokens(data)[i] == c.token_at(data, p));
    let (o, l) = c.best_match_upto(data, p, p);
    c.lemma_best_match(data, p, p);
    c.lemma_best_is_longest(data, p, p);
    let ds = c.dict_start(p);
    let cap = c.max_len(data, p);
    assert forall|s: int, m: int|
        ds <= s < p && 0 <= m <= cap && s + m <= p && #[trigger] data.subrange(s, s + m)
            == data.subrange(p, p + m) implies c.match_length_at(data, p, s) >= m by {
        assert forall|j: int| 0 <= j < m implies #[trigger] data[s + j] == data[p + j] by {
            assert(data.subrange(s, s + m)[j] == data.subrange(p, p + m)[j]);
        }
        lemma_common_len_at_least(data, s, p, min_int(cap, p - s) as nat, m as nat);
    }
    assert forall|j: int| 0 <= j < l implies #[trigger] data[p + j] == data[p - o + j] by {
        assert(data[p + j] == data[(p + j) - o]);
    }
    if l > 0 {
        assert forall|s: int| ds <= s < p - o implies #[trigger] data.subrange(s, s + l)
            != data.subrange(p, p + l) by {
            if data.subrange(s, s + l) == data.subrange(p, p + l) {
                assert(c.match_length_at(data, p, s) >= l);
            }
        }
    }
}

impl Default for LzmaCompressor {
    fn default() -> (c: Self)
        ensures
            c.dictionary_size == 65536,
            c.min_match_length == 3,
            c.max_match_length == 273,
    {
        Self { dictionary_size: 65536, min_match_length: 3, max_match_length: 273 }
    }
}

} // verus!
