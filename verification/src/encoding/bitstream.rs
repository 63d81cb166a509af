use vstd::prelude::*;

verus! {

/// Bit `i` of byte `b`, counting from the most significant bit (`i == 0`).
pub open spec fn bit_of(b: u8, i: int) -> bool {
    (b >> ((7 - i) as u8)) & 1u8 == 1u8
}

/// The bits of a byte sequence, most significant bit of each byte first.
pub open spec fn bytes_to_bits(s: Seq<u8>) -> Seq<bool> {
    Seq::new(8 * s.len(), |k: int| bit_of(s[k / 8], k % 8))
}

/// The number of zero bits that complete `n` bits to a whole number of bytes.
pub open spec fn padding_len(n: nat) -> nat {
    ((8 - n % 8) % 8) as nat
}

/// `bits` followed by zero bits up to a whole number of bytes.
pub open spec fn pad_to_bytes(bits: Seq<bool>) -> Seq<bool> {
    bits + Seq::new(padding_len(bits.len()), |i: int| false)
}

/// The bits of the characters `'0'` and `'1'` of `s`, in order; other characters are skipped.
pub open spec fn bit_string_bits(s: Seq<char>) -> Seq<bool>
    decreases s.len(),
{
    if s.len() == 0 {
        Seq::empty()
    } else {
        let rest = bit_string_bits(s.drop_last());
        if s.last() == '0' {
            rest.push(false)
        } else if s.last() == '1' {
            rest.push(true)
        } else {
            rest
        }
    }
}

/// The low `n` bits of `value`, most significant first.
pub open spec fn u64_bits(value: u64, n: nat) -> Seq<bool> {
    Seq::new(n, |k: int| (value >> ((n - 1 - k) as u64)) & 1u64 == 1u64)
}

/// The number whose binary digits, most significant first, are `bits`.
pub open spec fn bits_value(bits: Seq<bool>) -> nat
    decreases bits.len(),
{
    if bits.len() == 0 {
        0
    } else {
        2 * bits_value(bits.drop_last()) + (if bits.last() {
            1nat
        } else {
            0nat
        })
    }
}

/// The first `n` bits of byte `b`.
pub open spec fn byte_prefix_bits(b: u8, n: int) -> Seq<bool> {
    Seq::new(n as nat, |i: int| bit_of(b, i))
}

proof fn lemma_bit_of_u8(b: u8, j: u8)
    requires
        j < 8,
    ensures
        bit_of(b, j as int) == (((b >> ((7 - j) as u8)) & 1u8) == 1u8),
{
}

proof fn lemma_bytes_to_bits_push(s: Seq<u8>, b: u8)
    ensures
        bytes_to_bits(s.push(b)) =~= bytes_to_bits(s) + byte_prefix_bits(b, 8),
{
    assert forall|k: int| 0 <= k < 8 * (s.len() + 1) implies #[trigger] bytes_to_bits(s.push(b))[k]
        == (bytes_to_bits(s) + byte_prefix_bits(b, 8))[k] by {
        if k < 8 * s.len() {
            assert(k / 8 < s.len());
        } else {
            assert(k / 8 == s.len());
        }
    }
}

/// Setting bit `p` of a byte whose bits from `p` on are clear.
proof fn lemma_set_bit(c: u8, p: u8, bit: bool)
    requires
        p < 8,
        c & (0xFFu8 >> p) == 0,
    ensures
        ({
            let n = if bit {
                c | (1u8 << ((7 - p) as u8))
            } else {
                c
            };
            &&& forall|i: int| 0 <= i < p ==> bit_of(n, i) == bit_of(c, i)
            &&& bit_of(n, p as int) == bit
            &&& p + 1 < 8 ==> n & (0xFFu8 >> ((p + 1) as u8)) == 0
            &&& forall|i: int| p < i < 8 ==> !bit_of(n, i)
        }),
{
    let n = if bit {
        c | (1u8 << ((7 - p) as u8))
    } else {
        c
    };
    assert forall|i: int| 0 <= i < 8 implies bit_of(n, i) == (if i < p {
        bit_of(c, i)
    } else if i == p {
        bit
    } else {
        false
    }) by {
        let j = i as u8;
        lemma_bit_of_u8(n, j);
        lemma_bit_of_u8(c, j);
        if bit {
            assert(j < 8 && p < 8 && c & (0xFFu8 >> p) == 0 ==> (((c | (1u8 << ((7 - p) as u8))) >> ((7 - j) as u8)) & 1u8 == 1u8) == (if j < p {
                ((c >> ((7 - j) as u8)) & 1u8) == 1u8
            } else {
                j == p
            })) by (bit_vector);
        } else {
            assert(j < 8 && p < 8 && c & (0xFFu8 >> p) == 0 ==> (((c >> ((7 - j) as u8)) & 1u8 == 1u8)
                == (j < p && ((c >> ((7 - j) as u8)) & 1u8) == 1u8))) by (bit_vector);
        }
    }
    if p + 1 < 8 {
        if bit {
            assert(p + 1 < 8 && c & (0xFFu8 >> p) == 0 ==> (c | (1u8 << ((7 - p) as u8))) & (0xFFu8 >> (
            (p + 1) as u8)) == 0) by (bit_vector);
        } else {
            assert(p + 1 < 8 && c & (0xFFu8 >> p) == 0 ==> c & (0xFFu8 >> ((p + 1) as u8)) == 0)
                by (bit_vector);
        }
    }
}

/// Two bytes with the same eight bits are equal.
pub proof fn lemma_byte_from_bits(a: u8, b: u8)
    requires
        forall|i: int| 0 <= i < 8 ==> bit_of(a, i) == bit_of(b, i),
    ensures
        a == b,
{
    assert(bit_of(a, 0) == bit_of(b, 0));
    assert(bit_of(a, 1) == bit_of(b, 1));
    assert(bit_of(a, 2) == bit_of(b, 2));
    assert(bit_of(a, 3) == bit_of(b, 3));
    assert(bit_of(a, 4) == bit_of(b, 4));
    assert(bit_of(a, 5) == bit_of(b, 5));
    assert(bit_of(a, 6) == bit_of(b, 6));
    assert(bit_of(a, 7) == bit_of(b, 7));
    assert(((a >> 7u8) & 1u8 == 1u8) == ((b >> 7u8) & 1u8 == 1u8) && ((a >> 6u8) & 1u8 == 1u8) == (
    (b >> 6u8) & 1u8 == 1u8) && ((a >> 5u8) & 1u8 == 1u8) == ((b >> 5u8) & 1u8 == 1u8) && ((a
        >> 4u8) & 1u8 == 1u8) == ((b >> 4u8) & 1u8 == 1u8) && ((a >> 3u8) & 1u8 == 1u8) == ((b
        >> 3u8) & 1u8 == 1u8) && ((a >> 2u8) & 1u8 == 1u8) == ((b >> 2u8) & 1u8 == 1u8) && ((a
        >> 1u8) & 1u8 == 1u8) == ((b >> 1u8) & 1u8 == 1u8) && ((a >> 0u8) & 1u8 == 1u8) == ((b
        >> 0u8) & 1u8 == 1u8) ==> a == b) by (bit_vector);
}

/// The bytes that a writer hands out read back, bit by bit from the start, as the bits
/// written, followed by fewer than eight zero bits.
pub proof fn lemma_written_bits_read_back(written: Seq<bool>, bytes: Seq<u8>)
    requires
        bytes_to_bits(bytes) == pad_to_bytes(written),
    ensures
        8 * bytes.len() == written.len() + padding_len(written.len()),
        padding_len(written.len()) < 8,
        forall|k: int| 0 <= k < written.len() ==> #[trigger] bytes_to_bits(bytes)[k] == written[k],
        forall|k: int| written.len() <= k < 8 * bytes.len() ==> !#[trigger] bytes_to_bits(bytes)[k],
{
    assert(bytes_to_bits(bytes).len() == 8 * bytes.len());
}


/// The bits that writing the bytes of `b` one by one with `write_byte` appends.
pub open spec fn written_bytes(b: Seq<u8>) -> Seq<bool>
    decreases b.len(),
{
    if b.len() == 0 {
        Seq::empty()
    } else {
        written_bytes(b.drop_last()) + u64_bits(b.last() as u64, 8)
    }
}

proof fn lemma_written_bytes(b: Seq<u8>)
    ensures
        written_bytes(b) == bytes_to_bits(b),
    decreases b.len(),
{
    if b.len() == 0 {
        assert(bytes_to_bits(b) =~= Seq::<bool>::empty());
    } else {
        let x = b.last();
        lemma_written_bytes(b.drop_last());
        lemma_bytes_to_bits_push(b.drop_last(), x);
        assert(b.drop_last().push(x) =~= b);
        assert forall|k: int| 0 <= k < 8 implies #[trigger] u64_bits(x as u64, 8)[k]
            == byte_prefix_bits(x, 8)[k] by {
            let j = k as u8;
            lemma_bit_of_u8(x, j);
            assert(((x as u64) >> ((8 - 1 - j) as u64)) & 1u64 == 1u64 <==> (x >> ((7 - j) as u8))
                & 1u8 == 1u8) by (bit_vector)
                requires
                    j < 8,
            ;
        }
        assert(u64_bits(x as u64, 8) =~= byte_prefix_bits(x, 8));
    }
}

/// Bytes written one by one with `write_byte` come back unchanged from `into_bytes`, and
/// `read_byte` at position `8 * k` of them returns the `k`-th. (Past the last byte,
/// `read_byte` returns `None` by its own contract.)
pub proof fn lemma_write_read_bytes(b: Seq<u8>, bytes: Seq<u8>)
    requires
        bytes_to_bits(bytes) == pad_to_bytes(written_bytes(b)),
    ensures
        bytes == b,
        forall|k: int|
            0 <= k < b.len() ==> (bits_value(
                #[trigger] bytes_to_bits(bytes).subrange(8 * k, 8 * k + 8),
            ) as u8) == b[k],
{
    lemma_written_bytes(b);
    assert(bytes_to_bits(b).len() == 8 * b.len());
    assert(pad_to_bytes(bytes_to_bits(b)) =~= bytes_to_bits(b));
    lemma_bytes_to_bits_injective(bytes, b);
    assert forall|k: int| 0 <= k < b.len() implies (bits_value(
        #[trigger] bytes_to_bits(bytes).subrange(8 * k, 8 * k + 8),
    ) as u8) == b[k] by {
        let bits = bytes_to_bits(b).subrange(8 * k, 8 * k + 8);
        assert(bits =~= u64_bits(b[k] as u64, 8)) by {
            assert forall|i: int| 0 <= i < 8 implies #[trigger] bits[i] == u64_bits(b[k] as u64, 8)[i] by {
                let q = 8 * k + i;
                assert(q / 8 == k && q % 8 == i);
                assert(0 <= q < 8 * b.len()) by (nonlinear_arith)
                    requires
                        0 <= k < b.len(),
                        0 <= i < 8,
                        q == 8 * k + i,
                ;
                let x = b[k];
                let j = i as u8;
                lemma_bit_of_u8(x, j);
                assert(((x as u64) >> ((8 - 1 - j) as u64)) & 1u64 == 1u64 <==> (x >> ((7 - j) as u8))
                    & 1u8 == 1u8) by (bit_vector)
                    requires
                        j < 8,
                ;
            }
        }
        lemma_u64_bits_value(b[k] as u64, 8);
        vstd::arithmetic::power2::lemma2_to64();
    }
}

/// The bits that `write_bits` appends for `value` are its low `n` binary digits.
pub proof fn lemma_u64_bits_value(value: u64, n: nat)
    requires
        n <= 64,
    ensures
        bits_value(u64_bits(value, n)) == (value as nat) % vstd::arithmetic::power2::pow2(n),
    decreases n,
{
    vstd::arithmetic::power2::lemma2_to64();
    if n == 0 {
        assert(u64_bits(value, 0) =~= Seq::<bool>::empty());
    } else {
        let half = value >> 1u64;
        lemma_u64_bits_value(half, (n - 1) as nat);
        assert forall|k: int| 0 <= k < n - 1 implies #[trigger] u64_bits(value, n)[k] == u64_bits(
            half,
            (n - 1) as nat,
        )[k] by {
            let s = (n - 2 - k) as u64;
            assert((value >> 1u64) >> s == value >> ((s + 1) as u64)) by (bit_vector)
                requires
                    s < 63,
            ;
        }
        assert(u64_bits(value, n).drop_last() =~= u64_bits(half, (n - 1) as nat));
        assert(((value >> 0u64) & 1u64 == 1u64) == (value % 2 == 1)) by (bit_vector);
        assert(value >> 1u64 == value / 2) by (bit_vector);
        vstd::arithmetic::power2::lemma_pow2_unfold(n);
        vstd::arithmetic::power2::lemma_pow2_pos((n - 1) as nat);
        vstd::arithmetic::div_mod::lemma_mod_breakdown(
            value as int,
            2,
            vstd::arithmetic::power2::pow2((n - 1) as nat) as int,
        );
    }
}

/// A value written with `write_bits(value, n)` into a stream whose bytes are then read
/// with `read_bits(n)` at the same position reads back as `value` modulo 2^n, whatever
/// was written before and after it.
pub proof fn lemma_write_read_bits(
    before: Seq<bool>,
    value: u64,
    n: nat,
    after: Seq<bool>,
    bytes: Seq<u8>,
)
    requires
        n <= 64,
        bytes_to_bits(bytes) == pad_to_bytes(before + u64_bits(value, n) + after),
    ensures
        before.len() + n <= 8 * bytes.len(),
        bits_value(bytes_to_bits(bytes).subrange(before.len() as int, before.len() + n as int))
            % 0x1_0000_0000_0000_0000 == (value as nat) % vstd::arithmetic::power2::pow2(n),
{
    let written = before + u64_bits(value, n) + after;
    assert(bytes_to_bits(bytes).len() == 8 * bytes.len());
    assert(bytes_to_bits(bytes).subrange(before.len() as int, before.len() + n as int) =~= u64_bits(
        value,
        n,
    ));
    lemma_u64_bits_value(value, n);
    vstd::arithmetic::power2::lemma_pow2_pos(n);
    vstd::arithmetic::div_mod::lemma_mod_decreases(value as nat, vstd::arithmetic::power2::pow2(n));
}

/// Bytes are determined by their bits.
pub proof fn lemma_bytes_to_bits_injective(a: Seq<u8>, b: Seq<u8>)
    requires
        bytes_to_bits(a) == bytes_to_bits(b),
    ensures
        a == b,
{
    assert(bytes_to_bits(a).len() == 8 * a.len());
    assert(bytes_to_bits(b).len() == 8 * b.len());
    assert(a.len() == b.len());
    assert forall|i: int| 0 <= i < a.len() implies a[i] == b[i] by {
        assert forall|j: int| 0 <= j < 8 implies bit_of(a[i], j) == bit_of(b[i], j) by {
            let k = 8 * i + j;
            assert(k / 8 == i && k % 8 == j);
            assert(0 <= k < 8 * a.len()) by (nonlinear_arith)
                requires
                    0 <= i < a.len(),
                    0 <= j < 8,
                    k == 8 * i + j,
            ;
            assert(bytes_to_bits(a)[k] == bit_of(a[i], j));
            assert(bytes_to_bits(b)[k] == bit_of(b[i], j));
        }
        lemma_byte_from_bits(a[i], b[i]);
    }
    assert(a =~= b);
}

/// A bitstream writer for constructing compressed binary output bit-by-bit.
///
/// Its view is the sequence of bits written so far, most significant bit of each
/// byte first.
#[derive(Debug, Clone)]
pub struct BitstreamWriter {
    buffer: Vec<u8>,
    current_byte: u8,
    bit_position: u8,
}

impl View for BitstreamWriter {
    type V = Seq<bool>;

    closed spec fn view(&self) -> Seq<bool> {
        bytes_to_bits(self.buffer@) + byte_prefix_bits(self.current_byte, self.bit_position as int)
    }
}

impl BitstreamWriter {
    /// The writer's internal invariant: the partial byte holds only the bits written so far.
    pub closed spec fn wf(&self) -> bool {
        &&& self.bit_position < 8
        &&& self.current_byte & (0xFFu8 >> self.bit_position) == 0
    }

    /// The whole bytes written so far.
    pub closed spec fn complete_bytes(&self) -> Seq<u8> {
        self.buffer@
    }

    proof fn lemma_view(&self)
        requires
            self.wf(),
        ensures
            self@.len() == 8 * self.buffer@.len() + self.bit_position,
            bytes_to_bits(self.complete_bytes()) == self@.take(8 * self.buffer@.len() as int),
    {
        assert(bytes_to_bits(self.buffer@) =~= self@.take(8 * self.buffer@.len() as int));
    }

    pub fn new() -> (w: Self)
        ensures
            w.wf(),
            w@ == Seq::<bool>::empty(),
    {
        let w = Self { buffer: Vec::new(), current_byte: 0, bit_position: 0 };
        assert(0u8 & (0xFFu8 >> 0u8) == 0) by (bit_vector);
        assert(w@ =~= Seq::<bool>::empty());
        w
    }

    /// Write a single bit (0 or 1).
    pub fn write_bit(&mut self, bit: bool)
        requires
            old(self).wf(),
        ensures
            final(self).wf(),
            final(self)@ == old(self)@.push(bit),
    {
        let ghost old_view = self@;
        let p = self.bit_position;
        let c = self.current_byte;
        proof {
            lemma_set_bit(c, p, bit);
        }
        if bit {
            self.current_byte |= 1 << (7 - self.bit_position);
        }
        self.bit_position += 1;
        let ghost n = self.current_byte;
        assert(byte_prefix_bits(n, (p + 1) as int) =~= byte_prefix_bits(c, p as int).push(bit));
        if self.bit_position == 8 {
            let ghost old_buf = self.buffer@;
            self.buffer.push(self.current_byte);
            self.current_byte = 0;
            self.bit_position = 0;
            proof {
                lemma_bytes_to_bits_push(old_buf, n);
                assert(0u8 & (0xFFu8 >> 0u8) == 0) by (bit_vector);
                assert(byte_prefix_bits(0, 0) =~= Seq::<bool>::empty());
            }
        }
        assert(self@ =~= old_view.push(bit));
    }

    /// Write the low `num_bits` bits of `value`, most significant first.
    pub fn write_bits(&mut self, value: u64, num_bits: u8)
        requires
            old(self).wf(),
            num_bits <= 64,
        ensures
            final(self).wf(),
            final(self)@ == old(self)@ + u64_bits(value, num_bits as nat),
    {
        let ghost start = self@;
        let mut i: u8 = num_bits;
        while i > 0
            invariant
                self.wf(),
                i <= num_bits <= 64,
                self@ =~= start + u64_bits(value, num_bits as nat).take(num_bits - i),
            decreases i,
        {
            i -= 1;
            let ghost before = self@;
            self.write_bit((value >> i) & 1 == 1);
            assert(u64_bits(value, num_bits as nat).take(num_bits - i) =~= u64_bits(
                value,
                num_bits as nat,
            ).take(num_bits - i - 1).push((value >> i) & 1 == 1));
        }
        assert(u64_bits(value, num_bits as nat).take(num_bits as int) =~= u64_bits(
            value,
            num_bits as nat,
        ));
    }

    /// Write a full byte, most significant bit first.
    pub fn write_byte(&mut self, byte: u8)
        requires
            old(self).wf(),
        ensures
            final(self).wf(),
            final(self)@ == old(self)@ + u64_bits(byte as u64, 8),
    {
        self.write_bits(byte as u64, 8);
    }

    /// Write a string of '0' and '1' characters; other characters are ignored.
    pub fn write_bit_string(&mut self, bits: &str)
        requires
            old(self).wf(),
        ensures
            final(self).wf(),
            final(self)@ == old(self)@ + bit_string_bits(bits@),
    {
        let ghost start = self@;
        for ch in it: bits.chars()
            invariant
                self.wf(),
                it.seq() == bits@,
                self@ =~= start + bit_string_bits(it.seq().take(it.index())),
        {
            assert(it.seq().take(it.index() + 1).drop_last() =~= it.seq().take(it.index()));
            if ch == '0' {
                self.write_bit(false);
            } else if ch == '1' {
                self.write_bit(true);
            }
        }
        assert(bits@.take(bits@.len() as int) =~= bits@);
    }

    /// Flush any remaining bits, padding the partial byte with zeros.
    #[verifier::spinoff_prover]
    #[verifier::rlimit(40)]
    pub fn flush(&mut self)
        requires
            old(self).wf(),
        ensures
            final(self).wf(),
            final(self)@ == pad_to_bytes(old(self)@),
            final(self)@.len() % 8 == 0,
    {
        proof {
            self.lemma_view();
        }
        let ghost old_view = self@;
        if self.bit_position > 0 {
            let ghost old_buf = self.buffer@;
            let ghost c = self.current_byte;
            let ghost p = self.bit_position;
            self.buffer.push(self.current_byte);
            self.current_byte = 0;
            self.bit_position = 0;
            proof {
                lemma_bytes_to_bits_push(old_buf, c);
                assert(0u8 & (0xFFu8 >> 0u8) == 0) by (bit_vector);
                assert forall|i: int| p <= i < 8 implies !bit_of(c, i) by {
                    let j = i as u8;
                    lemma_bit_of_u8(c, j);
                    assert(j < 8 && p <= j && c & (0xFFu8 >> p) == 0 ==> (c >> ((7 - j) as u8)) & 1u8
                        == 0u8) by (bit_vector);
                }
                assert(self@ =~= pad_to_bytes(old_view));
            }
        } else {
            assert(self@ =~= pad_to_bytes(old_view));
        }
    }

    /// Get the total number of bits written.
    pub fn total_bits(&self) -> (n: usize)
        requires
            self.wf(),
            self@.len() <= usize::MAX,
        ensures
            n == self@.len(),
    {
        proof {
            self.lemma_view();
        }
        self.buffer.len() * 8 + self.bit_position as usize
    }

    /// Consume the writer and return the byte buffer, padded with zero bits.
    pub fn into_bytes(self) -> (bytes: Vec<u8>)
        requires
            self.wf(),
        ensures
            bytes_to_bits(bytes@) == pad_to_bytes(self@),
            bytes@.len() == (self@.len() + 7) / 8,
    {
        let mut w = self;
        w.flush();
        proof {
            w.lemma_view();
            assert(w.bit_position == 0);
        }
        w.buffer
    }

    /// Get a reference to the whole bytes written so far.
    pub fn as_bytes(&self) -> (bytes: &[u8])
        requires
            self.wf(),
        ensures
            bytes@ == self.complete_bytes(),
            bytes_to_bits(bytes@) == self@.take(8 * bytes@.len() as int),
            8 * bytes@.len() <= self@.len() < 8 * bytes@.len() + 8,
    {
        proof {
            self.lemma_view();
        }
        self.buffer.as_slice()
    }
}

impl Default for BitstreamWriter {
    fn default() -> (w: Self)
        ensures
            w.wf(),
            w@ == Seq::<bool>::empty(),
    {
        Self::new()
    }
}

/// A bitstream reader for reading binary data bit-by-bit, most significant bit of
/// each byte first.
#[derive(Debug, Clone)]
pub struct BitstreamReader<'a> {
    data: &'a [u8],
    byte_position: usize,
    bit_position: u8,
}

impl<'a> BitstreamReader<'a> {
    /// The bytes being read.
    pub closed spec fn data(&self) -> Seq<u8> {
        self.data@
    }

    /// The number of bits read so far.
    pub closed spec fn position(&self) -> int {
        8 * self.byte_position + self.bit_position
    }

    /// The reader's internal invariant: the position lies within the data.
    pub closed spec fn wf(&self) -> bool {
        &&& self.bit_position < 8
        &&& self.byte_position <= self.data@.len()
        &&& self.byte_position == self.data@.len() ==> self.bit_position == 0
    }

    /// The position lies between the start and the end of the data.
    pub proof fn lemma_position_bounds(&self)
        requires
            self.wf(),
        ensures
            0 <= self.position() <= 8 * self.data().len(),
    {
    }

    pub fn new(data: &'a [u8]) -> (r: Self)
        ensures
            r.wf(),
            r.data() == data@,
            r.position() == 0,
    {
        Self { data, byte_position: 0, bit_position: 0 }
    }

    /// Read a single bit; `None` once every bit of the data has been read.
    pub fn read_bit(&mut self) -> (bit: Option<bool>)
        requires
            old(self).wf(),
        ensures
            final(self).wf(),
            final(self).data() == old(self).data(),
            old(self).position() < 8 * old(self).data().len() ==> {
                &&& bit == Some(bytes_to_bits(old(self).data())[old(self).position()])
                &&& final(self).position() == old(self).position() + 1
            },
            old(self).position() >= 8 * old(self).data().len() ==> {
                &&& bit is None
                &&& final(self).position() == old(self).position()
            },
    {
        if self.byte_position >= self.data.len() {
            return None;
        }
        let byte = self.data[self.byte_position];
        let j = self.bit_position;
        let bit = (byte >> (7 - self.bit_position)) & 1 == 1;
        proof {
            lemma_bit_of_u8(byte, j);
            let k = 8 * self.byte_position + j;
            assert(k / 8 == self.byte_position as int);
            assert(k % 8 == j as int);
        }
        self.bit_position += 1;
        if self.bit_position == 8 {
            self.byte_position += 1;
            self.bit_position = 0;
        }
        Some(bit)
    }

    /// Read `num_bits` bits as a number, most significant first, keeping its low 64 bits.
    /// When fewer bits remain, every remaining bit is consumed and `None` is returned.
    pub fn read_bits(&mut self, num_bits: u8) -> (value: Option<u64>)
        requires
            old(self).wf(),
        ensures
            final(self).wf(),
            final(self).data() == old(self).data(),
            old(self).position() + num_bits <= 8 * old(self).data().len() ==> {
                &&& value == Some(
                    (bits_value(
                        bytes_to_bits(old(self).data()).subrange(
                            old(self).position(),
                            old(self).position() + num_bits,
                        ),
                    ) % 0x1_0000_0000_0000_0000) as u64,
                )
                &&& final(self).position() == old(self).position() + num_bits
            },
            old(self).position() + num_bits > 8 * old(self).data().len() ==> {
                &&& value is None
                &&& final(self).position() == 8 * old(self).data().len()
            },
    {
        let ghost start = self.position();
        let ghost bits = bytes_to_bits(self.data());
        let mut value: u64 = 0;
        let mut i: u8 = 0;
        while i < num_bits
            invariant
                self.wf(),
                self.data() == old(self).data(),
                bits == bytes_to_bits(self.data()),
                start == old(self).position(),
                i <= num_bits,
                self.position() == start + i,
                start + i <= 8 * self.data().len(),
                value as int == bits_value(bits.subrange(start, start + i)) % 0x1_0000_0000_0000_0000,
            decreases num_bits - i,
        {
            let bit = match self.read_bit() {
                Some(b) => b,
                None => {
                    return None;
                },
            };
            let b: u64 = if bit {
                1
            } else {
                0
            };
            proof {
                let prev = bits.subrange(start, start + i);
                let next = bits.subrange(start, start + i + 1);
                assert(next.drop_last() =~= prev);
                assert(next.last() == bit);
                let x = bits_value(prev);
                assert(((value << 1u64) | b) as int == (2 * (value as int) + (b as int))
                    % 0x1_0000_0000_0000_0000) by (bit_vector)
                    requires
                        b <= 1,
                ;
                assert((2 * (x % 0x1_0000_0000_0000_0000) + b) % 0x1_0000_0000_0000_0000 == (2 * x
                    + b) % 0x1_0000_0000_0000_0000) by (nonlinear_arith);
            }
            value = (value << 1) | b;
            i += 1;
        }
        Some(value)
    }

    /// Read a full byte.
    pub fn read_byte(&mut self) -> (byte: Option<u8>)
        requires
            old(self).wf(),
        ensures
            final(self).wf(),
            final(self).data() == old(self).data(),
            old(self).position() + 8 <= 8 * old(self).data().len() ==> {
                &&& byte == Some(
                    bits_value(
                        bytes_to_bits(old(self).data()).subrange(
                            old(self).position(),
                            old(self).position() + 8,
                        ),
                    ) as u8,
                )
                &&& final(self).position() == old(self).position() + 8
            },
            old(self).position() + 8 > 8 * old(self).data().len() ==> {
                &&& byte is None
                &&& final(self).position() == 8 * old(self).data().len()
            },
    {
        let ghost p = self.position();
        let ghost bits = bytes_to_bits(self.data());
        match self.read_bits(8) {
            Some(v) => {
                proof {
                    lemma_bits_value_bound(bits.subrange(p, p + 8));
                }
                Some(v as u8)
            },
            None => None,
        }
    }

    /// Get the total number of bits read so far.
    pub fn bits_read(&self) -> (n: usize)
        requires
            self.wf(),
            self.position() <= usize::MAX,
        ensures
            n == self.position(),
    {
        self.byte_position * 8 + self.bit_position as usize
    }

    /// Check if there are more bits to read.
    pub fn has_more(&self) -> (more: bool)
        requires
            self.wf(),
        ensures
            more == (self.position() < 8 * self.data().len()),
    {
        self.byte_position < self.data.len()
    }
}

/// A number of at most eight binary digits fits in a byte.
pub proof fn lemma_bits_value_bound(bits: Seq<bool>)
    requires
        bits.len() <= 8,
    ensures
        bits_value(bits) < 256,
{
    lemma_bits_value_pow(bits);
    vstd::arithmetic::power2::lemma2_to64();
    if bits.len() < 8 {
        vstd::arithmetic::power2::lemma_pow2_strictly_increases(bits.len(), 8);
    }
}

/// A number of `n` binary digits is below `2^n`.
pub proof fn lemma_bits_value_pow(bits: Seq<bool>)
    ensures
        bits_value(bits) < vstd::arithmetic::power2::pow2(bits.len()),
    decreases bits.len(),
{
    if bits.len() > 0 {
        lemma_bits_value_pow(bits.drop_last());
        vstd::arithmetic::power2::lemma_pow2_unfold(bits.len());
    } else {
        vstd::arithmetic::power2::lemma2_to64();
    }
}

/// The sum over the set bits of `bits`, bit `i` of `n` weighing `2^(n - 1 - i)`.
pub open spec fn bit_weight_sum(bits: Seq<bool>) -> nat
    decreases bits.len(),
{
    if bits.len() == 0 {
        0
    } else {
        (if bits[0] {
            vstd::arithmetic::power2::pow2((bits.len() - 1) as nat)
        } else {
            0nat
        }) + bit_weight_sum(bits.drop_first())
    }
}

proof fn lemma_weight_sum_last(bits: Seq<bool>)
    requires
        bits.len() > 0,
    ensures
        bit_weight_sum(bits) == 2 * bit_weight_sum(bits.drop_last()) + (if bits.last() {
            1nat
        } else {
            0nat
        }),
    decreases bits.len(),
{
    let n = bits.len();
    if n == 1 {
        vstd::arithmetic::power2::lemma2_to64();
        assert(bits.drop_first().len() == 0);
        assert(bits.drop_last().len() == 0);
        assert(bits.last() == bits[0]);
        assert(bit_weight_sum(bits) == (if bits[0] { 1nat } else { 0nat }) + bit_weight_sum(bits.drop_first()));
    } else {
        let rest = bits.drop_first();
        lemma_weight_sum_last(rest);
        assert(rest.drop_last() =~= bits.drop_last().drop_first());
        assert(rest.last() == bits.last());
        assert(bits.drop_last()[0] == bits[0]);
        vstd::arithmetic::power2::lemma_pow2_unfold((n - 1) as nat);
        let p1 = vstd::arithmetic::power2::pow2((n - 1) as nat);
        let p2 = vstd::arithmetic::power2::pow2((n - 2) as nat);
        let w1: nat = if bits[0] { p1 } else { 0 };
        let w2: nat = if bits[0] { p2 } else { 0 };
        assert(w1 == 2 * w2);
        assert(bit_weight_sum(bits) == w1 + bit_weight_sum(rest));
        assert(bit_weight_sum(bits.drop_last()) == w2 + bit_weight_sum(rest.drop_last()));
    }
}

/// The number that `read_bits` reads is the sum of its set bits, each shifted left by the
/// number of bits read after it: bit `i` of `n` stands for `2^(n - 1 - i)`.
pub proof fn lemma_bits_value_sum(bits: Seq<bool>)
    ensures
        bits_value(bits) == bit_weight_sum(bits),
    decreases bits.len(),
{
    if bits.len() > 0 {
        lemma_bits_value_sum(bits.drop_last());
        lemma_weight_sum_last(bits);
    }
}

/// The characters `'0'` and `'1'` that spell `bits`.
pub open spec fn bit_chars(bits: Seq<bool>) -> Seq<char> {
    bits.map_values(|b: bool| if b { '1' } else { '0' })
}

/// Visual representation of a bitstream.
#[derive(Debug, Clone)]
pub struct BitstreamVisualization {
    /// The raw bytes.
    pub bytes: Vec<u8>,
    /// Binary string representation.
    pub binary_string: String,
    /// Total number of meaningful bits.
    pub total_bits: usize,
    /// The shown bits of each byte, one group per byte that has any.
    pub byte_groups: Vec<String>,
}

/// Appends the character of one bit.
fn push_bit_char(s: &mut String, bit: bool)
    ensures
        final(s)@ == old(s)@.push(if bit { '1' } else { '0' }),
{
    if bit {
        proof {
            reveal_strlit("1");
        }
        s.append("1");
    } else {
        proof {
            reveal_strlit("0");
        }
        s.append("0");
    }
}

impl BitstreamVisualization {
    /// The number of bits shown for `bytes` when `total_bits` of them are meaningful.
    pub open spec fn shown_bits(bytes: Seq<u8>, total_bits: nat) -> nat {
        if total_bits < 8 * bytes.len() {
            total_bits
        } else {
            8 * bytes.len()
        }
    }

    pub fn from_bytes(bytes: &[u8], total_bits: usize) -> (v: Self)
        ensures
            v.bytes@ == bytes@,
            v.total_bits == total_bits,
            v.binary_string@ == bit_chars(
                bytes_to_bits(bytes@).take(Self::shown_bits(bytes@, total_bits as nat) as int),
            ),
            v.byte_groups@.len() == (Self::shown_bits(bytes@, total_bits as nat) + 7) / 8,
            forall|j: int|
                0 <= j < v.byte_groups@.len() ==> #[trigger] v.byte_groups@[j]@ == bit_chars(
                    bytes_to_bits(bytes@).subrange(
                        8 * j,
                        if 8 * j + 8 <= Self::shown_bits(bytes@, total_bits as nat) {
                            8 * j + 8
                        } else {
                            Self::shown_bits(bytes@, total_bits as nat) as int
                        },
                    ),
                ),
    {
        let ghost bits = bytes_to_bits(bytes@);
        let ghost shown = Self::shown_bits(bytes@, total_bits as nat);
        let mut binary_string = String::new();
        let mut byte_groups: Vec<String> = Vec::new();
        let mut bits_shown: usize = 0;
        let mut i: usize = 0;
        while i < bytes.len()
            invariant
                bits == bytes_to_bits(bytes@),
                shown == Self::shown_bits(bytes@, total_bits as nat),
                i <= bytes.len(),
                bits_shown as int == if total_bits < 8 * i { total_bits as int } else { 8 * i },
                binary_string@ == bit_chars(bits.take(bits_shown as int)),
                byte_groups@.len() == (bits_shown + 7) / 8,
                forall|j: int|
                    0 <= j < byte_groups@.len() ==> #[trigger] byte_groups@[j]@ == bit_chars(
                        bits.subrange(
                            8 * j,
                            if 8 * j + 8 <= bits_shown {
                                8 * j + 8
                            } else {
                                bits_shown as int
                            },
                        ),
                    ),
            decreases bytes.len() - i,
        {
            let byte = bytes[i];
            let mut group = String::new();
            let ghost group_start = bits_shown as int;
            let mut j: u8 = 0;
            while j < 8 && bits_shown < total_bits
                invariant
                    bits == bytes_to_bits(bytes@),
                    i < bytes.len(),
                    byte == bytes@[i as int],
                    j <= 8,
                    group_start == 8 * i || (group_start == total_bits && total_bits < 8 * i),
                    bits_shown == group_start + j || (j == 0 && bits_shown == group_start),
                    group_start < 8 * i ==> j == 0,
                    bits_shown <= total_bits,
                    binary_string@ == bit_chars(bits.take(bits_shown as int)),
                    group@ == bit_chars(bits.subrange(group_start, bits_shown as int)),
                decreases 8 - j,
            {
                let bit_pos: u8 = 7 - j;
                let bit = (byte >> bit_pos) & 1 == 1;
                proof {
                    lemma_bit_of_u8(byte, j);
                    let k = 8 * i + j;
                    assert(k / 8 == i as int);
                    assert(k % 8 == j as int);
                    assert(bits_shown == k);
                    assert(bits[k] == bit);
                    assert(bits.take(k + 1) =~= bits.take(k).push(bit));
                    assert(bits.subrange(group_start, k + 1) =~= bits.subrange(group_start, k).push(
                        bit,
                    ));
                }
                push_bit_char(&mut binary_string, bit);
                push_bit_char(&mut group, bit);
                proof {
                    assert(bit_chars(bits.take(bits_shown + 1)) =~= bit_chars(
                        bits.take(bits_shown as int),
                    ).push(if bit { '1' } else { '0' }));
                    assert(bit_chars(bits.subrange(group_start, bits_shown + 1)) =~= bit_chars(
                        bits.subrange(group_start, bits_shown as int),
                    ).push(if bit { '1' } else { '0' }));
                }
                bits_shown += 1;
                j += 1;
            }
            if !group.as_str().is_empty() {
                proof {
                    assert(group_start == 8 * i);
                    assert(bits_shown > group_start);
                    assert((group_start + 7) / 8 == i);
                    assert((bits_shown + 7) / 8 == i + 1);
                }
                byte_groups.push(group);
            } else {
                assert(bits_shown == group_start);
            }
            i += 1;
        }
        let v = Self { bytes: crate::bytes::copy_slice(bytes), binary_string, total_bits, byte_groups };
        assert(bits.take(shown as int) == bits.take(bits_shown as int));
        v
    }
}

} // verus!
