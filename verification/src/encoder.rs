use vstd::prelude::*;

use crate::bit_writer::{lemma_bytes_bits_len, low_bits, pad_len, zero_bits, BitWriter};
use crate::encoder_reader::{initial_window, EncoderReader};
use crate::source::ByteSource;
use crate::utility::{find_largest_subset, is_best_match, lemma_best_match_unique};
use crate::LzssError;

verus! {

/// The window after the encoder consumed `k` positions: slide by `k`,
/// refill with the next `min(k, |rem|)` stream bytes, and keep the stale
/// slots where the stream ran out.
pub open spec fn slid_window(w: Seq<u8>, k: int, rem: Seq<u8>) -> Seq<u8> {
    let c = vstd::math::min(k, rem.len() as int);
    w.skip(k) + rem.take(c) + w.subrange(c, k)
}

/// One symbol of the wire format: a raw byte, or a `(start, length)`
/// back-reference into the dictionary.
#[derive(Debug, Clone, Copy, PartialEq, Eq, Structural)]
pub enum LzssSymbol {
    S(u8),
    PC(u32, u32),
}

/// The encoder configuration: how many bits encode a back-reference's two
/// fields on the wire, the actual dictionary and look-ahead capacities, and
/// whether a match may run past the dictionary boundary into the look-ahead.
#[derive(Debug, Clone, Copy, PartialEq, Eq, Structural)]
pub struct LzssOptions {
    pub dictionary_bits: usize,
    pub max_match_bits: usize,
    pub dictionary_size: usize,
    pub max_match_size: usize,
    pub extend_into_input: bool,
}

/// Which bound a refused configuration broke.
#[derive(Debug, Clone, Copy, PartialEq, Eq, Structural)]
pub enum ConfigError {
    DictionaryBits,
    MaxMatchBits,
    DictionarySize,
    MaxMatchSize,
}

/// A field of at most thirty bits holds values below two to the thirtieth.
proof fn lemma_shift_bound(b: usize)
    requires
        b <= 30,
    ensures
        (1usize << b) <= 0x4000_0000usize,
{
    assert(b <= 30 ==> (1usize << b) <= 0x4000_0000usize) by (bit_vector);
}

impl LzssOptions {
    /// The bounds every usable configuration obeys: each encoded field fits
    /// its wire width.
    pub open spec fn valid(&self) -> bool {
        &&& 1 <= self.dictionary_bits <= 30
        &&& 1 <= self.max_match_bits <= 30
        &&& 1 <= self.dictionary_size <= (1usize << self.dictionary_bits)
        &&& 1 <= self.max_match_size <= (1usize << self.max_match_bits)
    }

    /// A valid configuration keeps both capacities below two to the
    /// thirtieth, so every start and length fits the wire fields.
    pub proof fn lemma_valid_sizes(&self)
        requires
            self.valid(),
        ensures
            self.dictionary_size <= 0x4000_0000,
            self.max_match_size <= 0x4000_0000,
    {
        lemma_shift_bound(self.dictionary_bits);
        lemma_shift_bound(self.max_match_bits);
    }

    pub fn new(
        dictionary_bits: usize,
        max_match_bits: usize,
        dictionary_size: usize,
        max_match_size: usize,
        extend_into_input: bool,
    ) -> (r: LzssOptions)
        ensures
            r == (LzssOptions {
                dictionary_bits,
                max_match_bits,
                dictionary_size,
                max_match_size,
                extend_into_input,
            }),
    {
        LzssOptions { dictionary_bits, max_match_bits, dictionary_size, max_match_size, extend_into_input }
    }

    /// What checking a raw configuration yields: each bound is tested in
    /// turn, and a capacity left unset defaults to everything its wire
    /// field can address.
    pub open spec fn spec_validated(
        dictionary_bits: usize,
        max_match_bits: usize,
        dictionary_size: Option<usize>,
        max_match_size: Option<usize>,
        extend_into_input: bool,
    ) -> Result<LzssOptions, ConfigError> {
        if !(1 <= dictionary_bits <= 30) {
            Err(ConfigError::DictionaryBits)
        } else if !(1 <= max_match_bits <= 30) {
            Err(ConfigError::MaxMatchBits)
        } else {
            let ds = match dictionary_size {
                Some(x) => x,
                None => 1usize << dictionary_bits,
            };
            let ms = match max_match_size {
                Some(x) => x,
                None => 1usize << max_match_bits,
            };
            if !(1 <= ds <= (1usize << dictionary_bits)) {
                Err(ConfigError::DictionarySize)
            } else if !(1 <= ms <= (1usize << max_match_bits)) {
                Err(ConfigError::MaxMatchSize)
            } else {
                Ok(
                    LzssOptions {
                        dictionary_bits,
                        max_match_bits,
                        dictionary_size: ds,
                        max_match_size: ms,
                        extend_into_input,
                    },
                )
            }
        }
    }

    /// Rejects a configuration that would overflow an encoded field,
    /// before any encoding begins; a capacity left unset defaults to
    /// everything its wire field can address.
    pub fn validated(
        dictionary_bits: usize,
        max_match_bits: usize,
        dictionary_size: Option<usize>,
        max_match_size: Option<usize>,
        extend_into_input: bool,
    ) -> (r: Result<LzssOptions, ConfigError>)
        ensures
            r == Self::spec_validated(
                dictionary_bits,
                max_match_bits,
                dictionary_size,
                max_match_size,
                extend_into_input,
            ),
            r matches Ok(o) ==> o.valid(),
    {
        if dictionary_bits < 1 || dictionary_bits > 30 {
            return Err(ConfigError::DictionaryBits);
        }
        if max_match_bits < 1 || max_match_bits > 30 {
            return Err(ConfigError::MaxMatchBits);
        }
        let max_dictionary_size = 1usize << dictionary_bits;
        let max_max_match_size = 1usize << max_match_bits;
        let ds = match dictionary_size {
            Some(x) => x,
            None => max_dictionary_size,
        };
        let ms = match max_match_size {
            Some(x) => x,
            None => max_max_match_size,
        };
        if ds < 1 || ds > max_dictionary_size {
            return Err(ConfigError::DictionarySize);
        }
        if ms < 1 || ms > max_max_match_size {
            return Err(ConfigError::MaxMatchSize);
        }
        Ok(
            LzssOptions {
                dictionary_bits,
                max_match_bits,
                dictionary_size: ds,
                max_match_size: ms,
                extend_into_input,
            },
        )
    }

    /// The exact bit pattern of one symbol: a `0` flag then the byte for a
    /// literal; a `1` flag, the start in `dictionary_bits` bits and the
    /// length in `max_match_bits` bits for a pair, every field
    /// most-significant bit first.
    pub open spec fn symbol_bits(&self, sym: LzssSymbol) -> Seq<bool> {
        match sym {
            LzssSymbol::S(b) => seq![false] + low_bits(b as u32, 8),
            LzssSymbol::PC(p, n) => seq![true] + low_bits(p, self.dictionary_bits as nat)
                + low_bits(n, self.max_match_bits as nat),
        }
    }

    /// How many bits a symbol costs on the wire.
    pub open spec fn symbol_cost(&self, sym: LzssSymbol) -> int {
        match sym {
            LzssSymbol::S(_) => 9,
            LzssSymbol::PC(_, _) => 1 + self.dictionary_bits + self.max_match_bits,
        }
    }

    /// The bits of a whole symbol sequence, in order.
    pub open spec fn stream_bits(&self, syms: Seq<LzssSymbol>) -> Seq<bool>
        decreases syms.len(),
    {
        if syms.len() == 0 {
            Seq::empty()
        } else {
            self.stream_bits(syms.drop_last()) + self.symbol_bits(syms.last())
        }
    }

    /// The summed wire cost of a symbol sequence.
    pub open spec fn stream_cost(&self, syms: Seq<LzssSymbol>) -> int
        decreases syms.len(),
    {
        if syms.len() == 0 {
            0
        } else {
            self.stream_cost(syms.drop_last()) + self.symbol_cost(syms.last())
        }
    }

    /// Every bit on the wire is accounted for: a symbol sequence appends
    /// exactly the sum of the per-symbol costs.
    pub proof fn lemma_stream_bits_len(&self, syms: Seq<LzssSymbol>)
        ensures
            self.stream_bits(syms).len() == self.stream_cost(syms),
        decreases syms.len(),
    {
        if syms.len() > 0 {
            self.lemma_stream_bits_len(syms.drop_last());
        }
    }

    pub proof fn lemma_stream_bits_concat(&self, a: Seq<LzssSymbol>, b: Seq<LzssSymbol>)
        ensures
            self.stream_bits(a + b) == self.stream_bits(a) + self.stream_bits(b),
        decreases b.len(),
    {
        if b.len() == 0 {
            assert(a + b =~= a);
            assert(self.stream_bits(a) + self.stream_bits(b) =~= self.stream_bits(a));
        } else {
            self.lemma_stream_bits_concat(a, b.drop_last());
            assert((a + b).drop_last() =~= a + b.drop_last());
            assert(self.stream_bits(a) + self.stream_bits(b.drop_last()) + self.symbol_bits(
                b.last(),
            ) =~= self.stream_bits(a) + self.stream_bits(b));
        }
    }

    pub proof fn lemma_stream_cost_concat(&self, a: Seq<LzssSymbol>, b: Seq<LzssSymbol>)
        ensures
            self.stream_cost(a + b) == self.stream_cost(a) + self.stream_cost(b),
        decreases b.len(),
    {
        if b.len() == 0 {
            assert(a + b =~= a);
        } else {
            self.lemma_stream_cost_concat(a, b.drop_last());
            assert((a + b).drop_last() =~= a + b.drop_last());
        }
    }

    /// The symbols the drive loop emits from a given state: window `w`,
    /// `missing` unfilled look-ahead slots, `rem` bytes still in the
    /// source. Each step looks up the best match, emits a pair when it is
    /// strictly cheaper on the wire than spelling the same bytes as
    /// literals, else one literal for the first look-ahead byte, and slides
    /// the window by what the symbol consumed. It stops when the look-ahead
    /// is empty.
    pub open spec fn loop_symbols(&self, w: Seq<u8>, missing: int, rem: Seq<u8>) -> Seq<
        LzssSymbol,
    >
        decreases rem.len() + (if 0 <= missing <= self.max_match_size {
            self.max_match_size - missing
        } else {
            0
        }),
    {
        let d = self.dictionary_size as int;
        let l = self.max_match_size as int;
        if missing < 0 || missing >= l {
            Seq::empty()
        } else {
            let v = l - missing;
            let (bs, bn) = choose|s2: int, n2: int|
                is_best_match(w, d, v, self.extend_into_input, s2, n2);
            if 1 + self.dictionary_bits + self.max_match_bits < 8 * bn && 1 <= bn <= v {
                let c = vstd::math::min(bn, rem.len() as int);
                seq![LzssSymbol::PC(bs as u32, bn as u32)] + self.loop_symbols(
                    slid_window(w, bn, rem),
                    missing + bn - c,
                    rem.skip(c),
                )
            } else {
                let c = vstd::math::min(1, rem.len() as int);
                seq![LzssSymbol::S(w[d])] + self.loop_symbols(
                    slid_window(w, 1, rem),
                    missing + 1 - c,
                    rem.skip(c),
                )
            }
        }
    }

    /// The whole symbol sequence for the stream `input`: the seed literal,
    /// then what the drive loop emits starting from the freshly built
    /// window.
    pub open spec fn encoding_symbols(&self, input: Seq<u8>) -> Seq<LzssSymbol> {
        let d = self.dictionary_size as int;
        let l = self.max_match_size as int;
        let c = vstd::math::min(l, input.len() - 1);
        seq![LzssSymbol::S(input[0])] + self.loop_symbols(
            initial_window(d, l, input),
            l - c,
            input.skip(1 + c),
        )
    }

    /// The whole bit stream a fresh encode of `input` emits: the symbol
    /// bits, zero-padded to a byte boundary.
    pub open spec fn encoding_bits(&self, input: Seq<u8>) -> Seq<bool> {
        let body = self.stream_bits(self.encoding_symbols(input));
        body + zero_bits(pad_len(body.len() as int) as nat)
    }

    /// A one-symbol sequence carries exactly that symbol's bits and cost.
    pub proof fn lemma_stream_single(&self, sym: LzssSymbol)
        ensures
            self.stream_bits(seq![sym]) == self.symbol_bits(sym),
            self.stream_cost(seq![sym]) == self.symbol_cost(sym),
    {
        assert(seq![sym].drop_last() =~= Seq::<LzssSymbol>::empty());
        assert(self.stream_cost(Seq::<LzssSymbol>::empty()) == 0);
        assert(self.stream_bits(Seq::<LzssSymbol>::empty()) =~= Seq::<bool>::empty());
        assert(seq![sym].last() == sym);
        assert(self.stream_bits(seq![sym]) =~= self.symbol_bits(sym));
    }

    /// No step of the drive loop pays more than nine bits per window
    /// position it consumes, so the whole tail costs at most nine bits per
    /// unit of work left.
    pub proof fn lemma_loop_cost(&self, w: Seq<u8>, missing: int, rem: Seq<u8>)
        ensures
            self.stream_cost(self.loop_symbols(w, missing, rem)) <= 9 * (rem.len() + (if 0
                <= missing <= self.max_match_size {
                self.max_match_size - missing
            } else {
                0
            })),
        decreases rem.len() + (if 0 <= missing <= self.max_match_size {
            self.max_match_size - missing
        } else {
            0
        }),
    {
        let d = self.dictionary_size as int;
        let l = self.max_match_size as int;
        if missing < 0 || missing >= l {
        } else {
            let v = l - missing;
            let (bs, bn) = choose|s2: int, n2: int|
                is_best_match(w, d, v, self.extend_into_input, s2, n2);
            if 1 + self.dictionary_bits + self.max_match_bits < 8 * bn && 1 <= bn <= v {
                let c = vstd::math::min(bn, rem.len() as int);
                let sym = LzssSymbol::PC(bs as u32, bn as u32);
                let rest = self.loop_symbols(slid_window(w, bn, rem), missing + bn - c, rem.skip(c));
                self.lemma_loop_cost(slid_window(w, bn, rem), missing + bn - c, rem.skip(c));
                self.lemma_stream_cost_concat(seq![sym], rest);
                self.lemma_stream_single(sym);
            } else {
                let c = vstd::math::min(1, rem.len() as int);
                let sym = LzssSymbol::S(w[d]);
                let rest = self.loop_symbols(slid_window(w, 1, rem), missing + 1 - c, rem.skip(c));
                self.lemma_loop_cost(slid_window(w, 1, rem), missing + 1 - c, rem.skip(c));
                self.lemma_stream_cost_concat(seq![sym], rest);
                self.lemma_stream_single(sym);
            }
        }
    }

    /// Appends one symbol to the bit stream, exactly as `symbol_bits` lays
    /// it out; returns how many whole bytes left the writer meanwhile.
    fn write_symbol(&self, symbol: &LzssSymbol, destination: &mut BitWriter) -> (written: usize)
        requires
            self.valid(),
        ensures
            final(destination).bits() == old(destination).bits() + self.symbol_bits(*symbol),
            written == final(destination).emitted().len() - old(destination).emitted().len(),
    {
        match symbol {
            LzssSymbol::S(s) => {
                let w1 = destination.write_bit(false);
                proof {
                    destination.lemma_sizes();
                }
                let w2 = destination.write_few(*s as u32, 8);
                proof {
                    destination.lemma_sizes();
                    assert(old(destination).bits().push(false) + low_bits(*s as u32, 8) =~= old(destination).bits() + self.symbol_bits(*symbol));
                }
                w1 + w2
            },
            LzssSymbol::PC(p, c) => {
                let w1 = destination.write_bit(true);
                proof {
                    destination.lemma_sizes();
                }
                let w2 = destination.write_few(*p, self.dictionary_bits);
                proof {
                    destination.lemma_sizes();
                }
                let w3 = destination.write_few(*c, self.max_match_bits);
                proof {
                    destination.lemma_sizes();
                    assert(old(destination).bits().push(true) + low_bits(
                        *p,
                        self.dictionary_bits as nat,
                    ) + low_bits(*c, self.max_match_bits as nat) =~= old(destination).bits()
                        + self.symbol_bits(*symbol));
                }
                w1 + w2 + w3
            },
        }
    }

    /// One iteration of the drive loop: pick the symbol the economic rule
    /// calls for, put its bits on the wire, and slide the window by what it
    /// consumed. Afterwards the missing count has not shrunk and still fits
    /// the look-ahead, and the remaining work is strictly smaller.
    fn encode_one(
        &self,
        buffer: &mut EncoderReader,
        source: &mut ByteSource,
        destination: &mut BitWriter,
    ) -> (r: (usize, usize))
        requires
            self.valid(),
            old(buffer).wf(),
            old(source).wf(),
            old(buffer).win().len() == self.dictionary_size + self.max_match_size,
            0 <= old(buffer).spec_missing() < self.max_match_size,
            old(buffer).spec_missing() > 0 ==> old(source).remaining().len() == 0,
        ensures
            final(buffer).wf(),
            final(source).wf(),
            final(buffer).win().len() == old(buffer).win().len(),
            old(buffer).spec_missing() <= final(buffer).spec_missing() <= self.max_match_size,
            final(buffer).spec_missing() > 0 ==> final(source).remaining().len() == 0,
            r.0 == old(source).remaining().len() - final(source).remaining().len(),
            final(source).remaining().len() <= old(source).remaining().len(),
            r.1 == final(destination).emitted().len() - old(destination).emitted().len(),
            ({
                let syms = self.loop_symbols(
                    old(buffer).win(),
                    old(buffer).spec_missing(),
                    old(source).remaining(),
                );
                let rest = self.loop_symbols(
                    final(buffer).win(),
                    final(buffer).spec_missing(),
                    final(source).remaining(),
                );
                &&& syms.len() >= 1
                &&& syms == seq![syms[0]] + rest
                &&& final(destination).bits() == old(destination).bits() + self.symbol_bits(
                    syms[0],
                )
            }),
            final(source).remaining().len() + (self.max_match_size - final(buffer).spec_missing()) < old(source).remaining().len() + (self.max_match_size - old(buffer).spec_missing()),
    {
        let d = self.dictionary_size;
        let l = self.max_match_size;
        let miss = buffer.missing();
        let v = l - miss;
        let (start, size) = find_largest_subset(buffer, d, v, self.extend_into_input);
        let ghost w = buffer.win();
        let ghost m = buffer.spec_missing();
        let ghost rem = old(source).remaining();
        let ghost dd = d as int;
        let ghost vv = v as int;
        proof {
            self.lemma_valid_sizes();
            let (bs, bn) = choose|s2: int, n2: int|
                is_best_match(w, dd, vv, self.extend_into_input, s2, n2);
            assert(is_best_match(w, dd, vv, self.extend_into_input, start as int, size as int));
            assert(exists|s2: int, n2: int|
                is_best_match(w, dd, vv, self.extend_into_input, s2, n2));
            lemma_best_match_unique(
                w,
                dd,
                vv,
                self.extend_into_input,
                bs,
                bn,
                start as int,
                size as int,
            );
            assert(bs == start as int && bn == size as int);
            if size > 0 {
                assert(crate::utility::is_match(
                    w,
                    dd,
                    vv,
                    self.extend_into_input,
                    start as int,
                    size as int,
                ));
            }
        }
        if 1 + (self.dictionary_bits as u64) + (self.max_match_bits as u64) < 8 * (size as u64) {
            let symbol = LzssSymbol::PC(start as u32, size as u32);
            let read = buffer.load(source, size);
            let written = self.write_symbol(&symbol, destination);
            proof {
                let syms = self.loop_symbols(w, m, rem);
                let rest = self.loop_symbols(
                    buffer.win(),
                    buffer.spec_missing(),
                    source.remaining(),
                );
                assert(buffer.win() =~= slid_window(w, size as int, rem));
                assert(syms == seq![symbol] + rest);
                assert(syms[0] == symbol);
            }
            (read, written)
        } else {
            let symbol = LzssSymbol::S(buffer.get(d));
            let read = buffer.load(source, 1);
            let written = self.write_symbol(&symbol, destination);
            proof {
                let syms = self.loop_symbols(w, m, rem);
                let rest = self.loop_symbols(
                    buffer.win(),
                    buffer.spec_missing(),
                    source.remaining(),
                );
                assert(buffer.win() =~= slid_window(w, 1, rem));
                assert(syms == seq![symbol] + rest);
                assert(syms[0] == symbol);
            }
            (read, written)
        }
    }

    /// Runs the whole pipeline over the source: the seed literal first,
    /// then one symbol per loop iteration until the look-ahead is
    /// exhausted, then the terminal flush. Returns how many bytes were
    /// consumed from the source and how many were written out.
    ///
    /// The appended bit stream is pinned as a function of the configuration
    /// and the input bytes alone, so two runs over the same input are
    /// bit-identical; and when the writer starts at a byte boundary the
    /// output never exceeds nine bits per input byte, rounded up to whole
    /// bytes.
    pub fn encode(&self, source: &mut ByteSource, destination: &mut BitWriter) -> (r: Result<
        (usize, usize),
        LzssError,
    >)
        requires
            self.valid(),
            old(source).wf(),
            self.dictionary_size + self.max_match_size <= usize::MAX / 2,
        ensures
            final(source).wf(),
            r is Err <==> old(source).remaining().len() == 0,
            r is Err ==> final(source).remaining() == old(source).remaining() && *final(destination) == *old(destination),
            r matches Ok(counts) ==> ({
                let input = old(source).remaining();
                let body = self.stream_bits(self.encoding_symbols(input));
                &&& counts.0 == input.len()
                &&& final(source).remaining().len() == 0
                &&& final(destination).bits() == old(destination).bits() + body + zero_bits(
                    pad_len((old(destination).bits().len() + body.len()) as int) as nat,
                )
                &&& final(destination).pending().len() == 0
                &&& counts.1 == final(destination).emitted().len() - old(destination).emitted().len()
                &&& (old(destination).bits().len() == 0 ==> final(destination).bits()
                    == self.encoding_bits(input))
                &&& (old(destination).pending().len() == 0 ==> 8 * counts.1 <= 9 * counts.0 + 7)
            }),
    {
        proof {
            self.lemma_valid_sizes();
            source.lemma_remaining_len();
        }
        let mut buffer = match EncoderReader::new(
            source,
            self.dictionary_size,
            self.max_match_size,
        ) {
            Err(e) => {
                return Err(e);
            },
            Ok(b) => b,
        };
        let seed = buffer.get(0);
        let ghost seed_sym = LzssSymbol::S(seed);
        let mut written_total = self.write_symbol(&LzssSymbol::S(seed), destination);
        let miss0 = buffer.missing();
        let mut read_total = self.max_match_size - miss0 + 1;
        let ghost w0 = buffer.win();
        let ghost m0 = buffer.spec_missing();
        let ghost rem1 = source.remaining();
        let ghost tail0 = self.loop_symbols(w0, m0, rem1);
        let ghost mut done: Seq<LzssSymbol> = Seq::empty();
        proof {
            assert(self.stream_bits(done) =~= Seq::<bool>::empty());
            assert(destination.bits() =~= old(destination).bits() + self.symbol_bits(seed_sym)
                + self.stream_bits(done));
            assert(tail0 =~= done + self.loop_symbols(
                buffer.win(),
                buffer.spec_missing(),
                source.remaining(),
            ));
        }
        while buffer.missing() < self.max_match_size
            invariant
                buffer.wf(),
                source.wf(),
                buffer.win().len() == self.dictionary_size + self.max_match_size,
                0 <= buffer.spec_missing() <= self.max_match_size,
                buffer.spec_missing() > 0 ==> source.remaining().len() == 0,
                old(source).remaining().len() <= usize::MAX,
                source.remaining().len() <= old(source).remaining().len(),
                read_total == old(source).remaining().len() - source.remaining().len(),
                written_total == destination.emitted().len() - old(destination).emitted().len(),
                tail0 == done + self.loop_symbols(
                    buffer.win(),
                    buffer.spec_missing(),
                    source.remaining(),
                ),
                destination.bits() == old(destination).bits() + self.symbol_bits(seed_sym)
                    + self.stream_bits(done),
            decreases source.remaining().len() + (self.max_match_size - buffer.spec_missing()),
        {
            let ghost pre_syms = self.loop_symbols(
                buffer.win(),
                buffer.spec_missing(),
                source.remaining(),
            );
            let (read, written) = self.encode_one(&mut buffer, source, destination);
            proof {
                destination.lemma_sizes();
                let post_syms = self.loop_symbols(
                    buffer.win(),
                    buffer.spec_missing(),
                    source.remaining(),
                );
                assert(pre_syms == seq![pre_syms[0]] + post_syms);
                assert(self.stream_bits(done.push(pre_syms[0])) == self.stream_bits(done)
                    + self.symbol_bits(pre_syms[0])) by {
                    assert(done.push(pre_syms[0]).drop_last() =~= done);
                }
                assert(tail0 =~= done.push(pre_syms[0]) + post_syms);
                done = done.push(pre_syms[0]);
            }
            read_total = read_total + read;
            written_total = written_total + written;
        }
        proof {
            assert(self.loop_symbols(buffer.win(), buffer.spec_missing(), source.remaining())
                =~= Seq::<LzssSymbol>::empty());
            assert(done =~= tail0);
        }
        let ghost preb = destination.bits();
        let flushed = destination.end_flush();
        proof {
            destination.lemma_sizes();
        }
        written_total = written_total + flushed;
        proof {
            let input = old(source).remaining();
            assert(initial_window(self.dictionary_size as int, self.max_match_size as int, input)[0]
                == input[0]);
            assert(seed == input[0]);
            assert(self.encoding_symbols(input) =~= seq![seed_sym] + tail0);
            let body = self.stream_bits(self.encoding_symbols(input));
            self.lemma_stream_bits_concat(seq![seed_sym], tail0);
            self.lemma_stream_single(seed_sym);
            assert(body =~= self.symbol_bits(seed_sym) + self.stream_bits(tail0));
            assert(preb =~= old(destination).bits() + body);
            assert(destination.bits() =~= old(destination).bits() + body + zero_bits(
                pad_len((old(destination).bits().len() + body.len()) as int) as nat,
            ));
            if old(destination).bits().len() == 0 {
                assert(destination.bits() =~= self.encoding_bits(input));
            }
            if old(destination).pending().len() == 0 {
                lemma_bytes_bits_len(old(destination).emitted());
                lemma_bytes_bits_len(destination.emitted());
                self.lemma_stream_bits_len(self.encoding_symbols(input));
                self.lemma_stream_cost_concat(seq![seed_sym], tail0);
                self.lemma_loop_cost(w0, m0, rem1);
                assert(self.stream_cost(tail0) <= 9 * (input.len() - 1));
                assert(8 * written_total <= 9 * read_total + 7);
            }
        }
        Ok((read_total, written_total))
    }
}

} // verus!
