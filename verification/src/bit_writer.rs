use vstd::prelude::*;

verus! {

/// The eight bits of a byte, most-significant first.
pub open spec fn byte_bits(b: u8) -> Seq<bool> {
    Seq::new(8, |i: int| (b >> ((7 - i) as u8)) & 1u8 == 1u8)
}

/// The bits of a whole byte stream, in emission order.
pub open spec fn bytes_bits(s: Seq<u8>) -> Seq<bool>
    decreases s.len(),
{
    if s.len() == 0 {
        Seq::empty()
    } else {
        bytes_bits(s.drop_last()) + byte_bits(s.last())
    }
}

/// The low `n` bits of `v`, most-significant first.
pub open spec fn low_bits(v: u32, n: nat) -> Seq<bool> {
    Seq::new(n, |i: int| (v >> ((n - 1 - i) as u32)) & 1u32 == 1u32)
}

/// A run of `n` zero bits, as appended by the terminal flush.
pub open spec fn zero_bits(n: nat) -> Seq<bool> {
    Seq::new(n, |i: int| false)
}

/// How many zero bits the terminal flush appends after `n` bits of payload
/// to reach a byte boundary.
pub open spec fn pad_len(n: int) -> int {
    (8 - n % 8) % 8
}

pub proof fn lemma_bytes_bits_push(s: Seq<u8>, b: u8)
    ensures
        bytes_bits(s.push(b)) == bytes_bits(s) + byte_bits(b),
{
    assert(s.push(b).drop_last() =~= s);
    assert(s.push(b).last() == b);
}

pub proof fn lemma_bytes_bits_len(s: Seq<u8>)
    ensures
        bytes_bits(s).len() == 8 * s.len(),
    decreases s.len(),
{
    if s.len() > 0 {
        lemma_bytes_bits_len(s.drop_last());
    }
}

pub proof fn lemma_bytes_bits_concat(a: Seq<u8>, b: Seq<u8>)
    ensures
        bytes_bits(a + b) == bytes_bits(a) + bytes_bits(b),
    decreases b.len(),
{
    if b.len() == 0 {
        assert(a + b =~= a);
        assert(bytes_bits(a) + bytes_bits(b) =~= bytes_bits(a));
    } else {
        lemma_bytes_bits_concat(a, b.drop_last());
        assert((a + b).drop_last() =~= a + b.drop_last());
        assert((a + b).last() == b.last());
        assert(bytes_bits(a) + bytes_bits(b.drop_last()) + byte_bits(b.last())
            =~= bytes_bits(a) + bytes_bits(b));
    }
}

/// A byte is recovered from its own bits.
pub proof fn lemma_byte_bits_injective(x: u8, y: u8)
    requires
        byte_bits(x) == byte_bits(y),
    ensures
        x == y,
{
    assert(byte_bits(x)[0] == ((x >> 7u8) & 1u8 == 1u8) && byte_bits(y)[0] == ((y >> 7u8) & 1u8
        == 1u8));
    assert(byte_bits(x)[1] == ((x >> 6u8) & 1u8 == 1u8) && byte_bits(y)[1] == ((y >> 6u8) & 1u8
        == 1u8));
    assert(byte_bits(x)[2] == ((x >> 5u8) & 1u8 == 1u8) && byte_bits(y)[2] == ((y >> 5u8) & 1u8
        == 1u8));
    assert(byte_bits(x)[3] == ((x >> 4u8) & 1u8 == 1u8) && byte_bits(y)[3] == ((y >> 4u8) & 1u8
        == 1u8));
    assert(byte_bits(x)[4] == ((x >> 3u8) & 1u8 == 1u8) && byte_bits(y)[4] == ((y >> 3u8) & 1u8
        == 1u8));
    assert(byte_bits(x)[5] == ((x >> 2u8) & 1u8 == 1u8) && byte_bits(y)[5] == ((y >> 2u8) & 1u8
        == 1u8));
    assert(byte_bits(x)[6] == ((x >> 1u8) & 1u8 == 1u8) && byte_bits(y)[6] == ((y >> 1u8) & 1u8
        == 1u8));
    assert(byte_bits(x)[7] == ((x >> 0u8) & 1u8 == 1u8) && byte_bits(y)[7] == ((y >> 0u8) & 1u8
        == 1u8));
    assert(x == y) by (bit_vector)
        requires
            ((x >> 7u8) & 1u8 == 1u8) == ((y >> 7u8) & 1u8 == 1u8),
            ((x >> 6u8) & 1u8 == 1u8) == ((y >> 6u8) & 1u8 == 1u8),
            ((x >> 5u8) & 1u8 == 1u8) == ((y >> 5u8) & 1u8 == 1u8),
            ((x >> 4u8) & 1u8 == 1u8) == ((y >> 4u8) & 1u8 == 1u8),
            ((x >> 3u8) & 1u8 == 1u8) == ((y >> 3u8) & 1u8 == 1u8),
            ((x >> 2u8) & 1u8 == 1u8) == ((y >> 2u8) & 1u8 == 1u8),
            ((x >> 1u8) & 1u8 == 1u8) == ((y >> 1u8) & 1u8 == 1u8),
            ((x >> 0u8) & 1u8 == 1u8) == ((y >> 0u8) & 1u8 == 1u8),
    ;
}

/// Grouping bits into bytes loses nothing: two byte streams carrying the
/// same bits are the same stream. Together with the terminal flush's
/// contract this makes the emitted bytes exactly the most-significant-first
/// grouping of the appended bits.
pub proof fn lemma_bytes_bits_injective(a: Seq<u8>, b: Seq<u8>)
    requires
        bytes_bits(a) == bytes_bits(b),
    ensures
        a == b,
    decreases a.len(),
{
    lemma_bytes_bits_len(a);
    lemma_bytes_bits_len(b);
    if a.len() == 0 {
        assert(a =~= b);
    } else {
        let n = a.len() as int;
        lemma_bytes_bits_len(a.drop_last());
        lemma_bytes_bits_len(b.drop_last());
        assert forall|j: int| 0 <= j < 8 implies byte_bits(a.last())[j] == byte_bits(
            b.last(),
        )[j] by {
            assert(bytes_bits(a)[8 * (n - 1) + j] == byte_bits(a.last())[j]);
            assert(bytes_bits(b)[8 * (n - 1) + j] == byte_bits(b.last())[j]);
        }
        assert(byte_bits(a.last()) =~= byte_bits(b.last()));
        lemma_byte_bits_injective(a.last(), b.last());
        assert forall|i: int| 0 <= i < bytes_bits(a.drop_last()).len() implies bytes_bits(
            a.drop_last(),
        )[i] == bytes_bits(b.drop_last())[i] by {
            assert(bytes_bits(a)[i] == bytes_bits(a.drop_last())[i]);
            assert(bytes_bits(b)[i] == bytes_bits(b.drop_last())[i]);
        }
        assert(bytes_bits(a.drop_last()) =~= bytes_bits(b.drop_last()));
        lemma_bytes_bits_injective(a.drop_last(), b.drop_last());
        assert forall|i: int| 0 <= i < n implies a[i] == b[i] by {
            if i < n - 1 {
                assert(a[i] == a.drop_last()[i]);
                assert(b[i] == b.drop_last()[i]);
            }
        }
        assert(a =~= b);
    }
}

/// Upper bound, in complete bytes, that the bit buffer may hold before the
/// writer moves them out to the byte stream on its own.
pub const AUTOFLUSH: usize = 1024 * 1024;

/// Packs individual bits and small bit fields into a byte stream,
/// most-significant bit first.
///
/// `emitted()` is the byte stream produced so far, `pending()` the bits not
/// yet grouped into a byte, and `bits()` the whole bit stream appended so
/// far; `bits()` always equals the emitted bytes' bits followed by the
/// pending bits.
pub struct BitWriter {
    out: Vec<u8>,
    buffer: Vec<bool>,
}

impl BitWriter {
    /// The bytes moved out to the byte stream so far.
    pub closed spec fn emitted(&self) -> Seq<u8> {
        self.out@
    }

    /// The appended bits still waiting in the bit buffer.
    pub closed spec fn pending(&self) -> Seq<bool> {
        self.buffer@
    }

    /// Every bit appended so far, in order.
    pub open spec fn bits(&self) -> Seq<bool> {
        bytes_bits(self.emitted()) + self.pending()
    }

    pub fn new() -> (w: BitWriter)
        ensures
            w.emitted() == Seq::<u8>::empty(),
            w.pending() == Seq::<bool>::empty(),
            w.bits() == Seq::<bool>::empty(),
    {
        let w = BitWriter { out: Vec::new(), buffer: Vec::new() };
        proof {
            assert(w.bits() =~= Seq::<bool>::empty());
        }
        w
    }

    /// Both halves of the writer live in machine memory.
    pub proof fn lemma_sizes(&self)
        ensures
            self.emitted().len() <= usize::MAX,
            self.pending().len() <= usize::MAX,
    {
        vstd::std_specs::vec::axiom_spec_len(&self.out);
        vstd::std_specs::vec::axiom_spec_len(&self.buffer);
    }

    /// Hands the accumulated byte stream to the caller.
    pub fn into_bytes(self) -> (r: Vec<u8>)
        ensures
            r@ == self.emitted(),
    {
        self.out
    }

    /// Moves every complete byte from the bit buffer to the byte stream;
    /// up to seven bits stay pending.
    fn flush(&mut self) -> (r: usize)
        ensures
            final(self).bits() == old(self).bits(),
            final(self).pending() == old(self).pending().skip(
                8 * (old(self).pending().len() as int / 8),
            ),
            final(self).emitted().len() == old(self).emitted().len() + old(self).pending().len() as int / 8,
            r == final(self).emitted().len() - old(self).emitted().len(),
    {
        let full: usize = self.buffer.len() / 8;
        let mut packed: Vec<u8> = Vec::new();
        let mut k: usize = 0;
        while k < full
            invariant
                k <= full,
                packed@.len() == k,
                bytes_bits(packed@) == self.buffer@.take(8 * k),
            decreases full - k,
        {
            let b = pack_byte(&self.buffer, 8 * k);
            proof {
                lemma_bytes_bits_push(packed@, b);
                assert(self.buffer@.take(8 * k) + self.buffer@.subrange(8 * k, 8 * k + 8)
                    =~= self.buffer@.take(8 * (k + 1)));
            }
            packed.push(b);
            k += 1;
        }
        let mut rest: Vec<bool> = Vec::new();
        let mut j: usize = 8 * full;
        while j < self.buffer.len()
            invariant
                8 * full <= j <= self.buffer@.len(),
                rest@ == self.buffer@.subrange(8 * full, j as int),
            decreases self.buffer@.len() - j,
        {
            let bit = self.buffer[j];
            rest.push(bit);
            proof {
                assert(rest@ =~= self.buffer@.subrange(8 * full, j + 1));
            }
            j += 1;
        }
        let r = packed.len();
        proof {
            lemma_bytes_bits_concat(self.out@, packed@);
            assert(self.buffer@.take(8 * full) + self.buffer@.skip(8 * full) =~= self.buffer@);
            assert(rest@ =~= self.buffer@.skip(8 * full));
        }
        self.out.append(&mut packed);
        self.buffer = rest;
        proof {
            assert(self.bits() =~= old(self).bits());
        }
        r
    }

    /// Flushes complete bytes once more than `AUTOFLUSH` of them are waiting.
    fn autoflush(&mut self) -> (r: usize)
        ensures
            final(self).bits() == old(self).bits(),
            final(self).pending().len() <= old(self).pending().len(),
            r == final(self).emitted().len() - old(self).emitted().len(),
    {
        let full: usize = self.buffer.len() / 8;
        if full > AUTOFLUSH {
            self.flush()
        } else {
            0
        }
    }

    /// Appends one bit.
    pub fn write_bit(&mut self, bit: bool) -> (r: usize)
        ensures
            final(self).bits() == old(self).bits().push(bit),
            r == final(self).emitted().len() - old(self).emitted().len(),
    {
        self.buffer.push(bit);
        proof {
            assert(self.bits() =~= old(self).bits().push(bit));
        }
        self.autoflush()
    }

    /// Appends the low `n_bits` bits of `bits`, most-significant first.
    pub fn write_few(&mut self, bits: u32, n_bits: usize) -> (r: usize)
        requires
            1 <= n_bits <= 32,
        ensures
            final(self).bits() == old(self).bits() + low_bits(bits, n_bits as nat),
            r == final(self).emitted().len() - old(self).emitted().len(),
    {
        let mut chunk: Vec<bool> = Vec::new();
        let mut i: usize = 0;
        while i < n_bits
            invariant
                i <= n_bits,
                chunk@ == low_bits(bits, n_bits as nat).take(i as int),
            decreases n_bits - i,
        {
            let sh: u32 = (n_bits - 1 - i) as u32;
            let bit = ((bits >> sh) & 1u32) == 1u32;
            chunk.push(bit);
            proof {
                assert(chunk@ =~= low_bits(bits, n_bits as nat).take(i + 1));
            }
            i += 1;
        }
        proof {
            assert(chunk@ =~= low_bits(bits, n_bits as nat));
        }
        self.buffer.append(&mut chunk);
        proof {
            assert(self.bits() =~= old(self).bits() + low_bits(bits, n_bits as nat));
        }
        self.autoflush()
    }

    /// Zero-pads to a byte boundary and emits everything; the bit buffer is
    /// empty afterwards, so the byte stream carries exactly the appended
    /// bits.
    pub fn end_flush(&mut self) -> (r: usize)
        ensures
            final(self).pending().len() == 0,
            final(self).bits() == old(self).bits() + zero_bits(
                pad_len(old(self).bits().len() as int) as nat,
            ),
            bytes_bits(final(self).emitted()) == final(self).bits(),
            r == final(self).emitted().len() - old(self).emitted().len(),
    {
        let m: usize = (8 - self.buffer.len() % 8) % 8;
        proof {
            lemma_bytes_bits_len(self.out@);
            assert(self.bits().len() % 8 == self.buffer@.len() % 8);
        }
        let mut padding: Vec<bool> = Vec::new();
        let mut i: usize = 0;
        while i < m
            invariant
                i <= m,
                padding@ == zero_bits(i as nat),
            decreases m - i,
        {
            padding.push(false);
            proof {
                assert(padding@ =~= zero_bits((i + 1) as nat));
            }
            i += 1;
        }
        self.buffer.append(&mut padding);
        proof {
            assert((self.buffer@.len() as int) % 8 == 0);
            assert(self.bits() =~= old(self).bits() + zero_bits(
                pad_len(old(self).bits().len() as int) as nat,
            ));
        }
        let r = self.flush();
        proof {
            assert(self.pending() =~= Seq::<bool>::empty());
            assert(bytes_bits(self.emitted()) =~= self.bits());
        }
        r
    }
}

/// Reads eight bits at offset `i` and packs them into one byte,
/// most-significant first.
fn pack_byte(bits: &Vec<bool>, i: usize) -> (b: u8)
    requires
        i + 8 <= bits.len(),
    ensures
        byte_bits(b) == bits@.subrange(i as int, i as int + 8),
{
    let x0: u8 = if bits[i] { 1 } else { 0 };
    let x1: u8 = if bits[i + 1] { 1 } else { 0 };
    let x2: u8 = if bits[i + 2] { 1 } else { 0 };
    let x3: u8 = if bits[i + 3] { 1 } else { 0 };
    let x4: u8 = if bits[i + 4] { 1 } else { 0 };
    let x5: u8 = if bits[i + 5] { 1 } else { 0 };
    let x6: u8 = if bits[i + 6] { 1 } else { 0 };
    let x7: u8 = if bits[i + 7] { 1 } else { 0 };
    let b: u8 = (x0 << 7u8) | (x1 << 6u8) | (x2 << 5u8) | (x3 << 4u8) | (x4 << 3u8) | (x5
        << 2u8) | (x6 << 1u8) | x7;
    proof {
        assert((b >> 7u8) & 1u8 == x0 && (b >> 6u8) & 1u8 == x1 && (b >> 5u8) & 1u8 == x2 && (b
            >> 4u8) & 1u8 == x3 && (b >> 3u8) & 1u8 == x4 && (b >> 2u8) & 1u8 == x5 && (b >> 1u8)
            & 1u8 == x6 && (b >> 0u8) & 1u8 == x7) by (bit_vector)
            requires
                b == (x0 << 7u8) | (x1 << 6u8) | (x2 << 5u8) | (x3 << 4u8) | (x4 << 3u8) | (x5
                    << 2u8) | (x6 << 1u8) | x7,
                x0 <= 1,
                x1 <= 1,
                x2 <= 1,
                x3 <= 1,
                x4 <= 1,
                x5 <= 1,
                x6 <= 1,
                x7 <= 1,
        ;
        assert(byte_bits(b)[0] == bits@[i as int]);
        assert(byte_bits(b)[1] == bits@[i + 1]);
        assert(byte_bits(b)[2] == bits@[i + 2]);
        assert(byte_bits(b)[3] == bits@[i + 3]);
        assert(byte_bits(b)[4] == bits@[i + 4]);
        assert(byte_bits(b)[5] == bits@[i + 5]);
        assert(byte_bits(b)[6] == bits@[i + 6]);
        assert(byte_bits(b)[7] == bits@[i + 7]);
        assert(byte_bits(b) =~= bits@.subrange(i as int, i as int + 8));
    }
    b
}

} // verus!
