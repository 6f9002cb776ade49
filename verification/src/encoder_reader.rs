use vstd::prelude::*;

use crate::source::ByteSource;
use crate::LzssError;

verus! {

/// A window laid over a ring: logical position `i` lives at storage slot
/// `o + i`, wrapping past the end of the storage.
pub open spec fn ring_view(s: Seq<u8>, o: int) -> Seq<u8> {
    Seq::new(
        s.len(),
        |i: int|
            if o + i < s.len() {
                s[o + i]
            } else {
                s[o + i - s.len()]
            },
    )
}

/// The window contents right after construction from a source with
/// remaining bytes `rem`: the first byte of the stream repeated across the
/// whole dictionary, then as much of the rest of the stream as fits the
/// look-ahead, then untouched (zeroed) slots for the shortfall.
pub open spec fn initial_window(dict_size: int, buff_size: int, rem: Seq<u8>) -> Seq<u8> {
    let c = vstd::math::min(buff_size, rem.len() - 1);
    Seq::new(dict_size as nat, |i: int| rem[0]) + rem.subrange(1, 1 + c) + Seq::new(
        (buff_size - c) as nat,
        |i: int| 0u8,
    )
}

/// Advancing the origin by `k` slots rotates the logical window by `k`.
proof fn lemma_ring_shift(s: Seq<u8>, o: int, k: int)
    requires
        0 <= o < s.len(),
        0 <= k < s.len(),
    ensures
        ring_view(
            s,
            if o + k < s.len() {
                o + k
            } else {
                o + k - s.len()
            },
        ) == ring_view(s, o).skip(k) + ring_view(s, o).take(k),
{
    let m = s.len() as int;
    let o2: int = if o + k < m {
        o + k
    } else {
        o + k - m
    };
    let rot = ring_view(s, o).skip(k) + ring_view(s, o).take(k);
    assert forall|i: int| 0 <= i < m implies ring_view(s, o2)[i] == rot[i] by {
        if i < m - k {
            assert(rot[i] == ring_view(s, o)[k + i]);
        } else {
            assert(rot[i] == ring_view(s, o)[i - (m - k)]);
        }
    }
    assert(ring_view(s, o2) =~= rot);
}

/// A fixed ring of `dict_size + buff_size` bytes holding the dictionary
/// followed by the look-ahead, refilled from a byte source as the encoder
/// consumes it.
///
/// `win()` is the window in logical order; `spec_missing()` counts the
/// look-ahead slots left unfilled because the source ran out.
pub struct EncoderReader {
    size: usize,
    buffer: Vec<u8>,
    offset: usize,
    missing: usize,
}

impl EncoderReader {
    pub closed spec fn wf(&self) -> bool {
        &&& self.buffer@.len() == self.size
        &&& self.offset < self.size
        &&& 1 <= self.size <= usize::MAX / 2
    }

    /// The window in logical order: dictionary first, look-ahead after it.
    pub closed spec fn win(&self) -> Seq<u8> {
        ring_view(self.buffer@, self.offset as int)
    }

    /// The count of look-ahead slots whose bytes the source could not supply.
    pub closed spec fn spec_missing(&self) -> int {
        self.missing as int
    }

    /// Builds the window: reads the seed byte, fills the look-ahead from the
    /// source, and floods the dictionary with the seed. Fails only when the
    /// source is empty from the start.
    pub fn new(source: &mut ByteSource, dict_size: usize, buff_size: usize) -> (r: Result<
        EncoderReader,
        LzssError,
    >)
        requires
            old(source).wf(),
            1 <= dict_size,
            1 <= buff_size,
            dict_size + buff_size <= usize::MAX / 2,
        ensures
            final(source).wf(),
            old(source).remaining().len() == 0 ==> r is Err && final(source).remaining() == old(source).remaining(),
            old(source).remaining().len() > 0 ==> ({
                let rem = old(source).remaining();
                let c = vstd::math::min(buff_size as int, rem.len() - 1);
                &&& r matches Ok(w)
                &&& w.wf()
                &&& w.win() == initial_window(dict_size as int, buff_size as int, rem)
                &&& w.win().len() == dict_size + buff_size
                &&& w.spec_missing() == buff_size - c
                &&& final(source).remaining() == rem.skip(1 + c)
                &&& (w.spec_missing() > 0 ==> final(source).remaining().len() == 0)
            }),
    {
        let size = dict_size + buff_size;
        let seed = match source.read_byte() {
            None => {
                return Err(LzssError::UnexpectedEndOfInput);
            },
            Some(b) => b,
        };
        let mut buffer: Vec<u8> = Vec::new();
        let mut z: usize = 0;
        while z < size
            invariant
                z <= size,
                buffer@ == Seq::new(z as nat, |i: int| 0u8),
            decreases size - z,
        {
            buffer.push(0);
            proof {
                assert(buffer@ =~= Seq::new((z + 1) as nat, |i: int| 0u8));
            }
            z += 1;
        }
        buffer.set(dict_size - 1, seed);
        let mut c: usize = 0;
        let mut done = false;
        while c < buff_size && !done
            invariant
                c <= buff_size,
                source.wf(),
                buffer@.len() == size,
                source.remaining() == old(source).remaining().skip(1 + c),
                1 + c <= old(source).remaining().len(),
                done ==> source.remaining().len() == 0,
                buffer@[dict_size - 1] == seed,
                forall|j: int| 0 <= j < c ==> #[trigger] buffer@[dict_size + j] == old(source).remaining()[1 + j],
                forall|j: int| c <= j < buff_size ==> #[trigger] buffer@[dict_size + j] == 0,
                forall|j: int| 0 <= j < dict_size - 1 ==> #[trigger] buffer@[j] == 0,
            decreases buff_size - c, (if done {
                0int
            } else {
                1int
            }),
        {
            match source.read_byte() {
                Some(b) => {
                    proof {
                        assert(source.remaining() =~= old(source).remaining().skip(2 + c));
                    }
                    buffer.set(dict_size + c, b);
                    c += 1;
                },
                None => {
                    done = true;
                },
            }
        }
        let missing = buff_size - c;
        let mut j: usize = 0;
        while j < dict_size - 1
            invariant
                j <= dict_size - 1,
                buffer@.len() == size,
                buffer@[dict_size - 1] == seed,
                forall|i: int| 0 <= i < j ==> #[trigger] buffer@[i] == seed,
                forall|i: int| j <= i < dict_size - 1 ==> #[trigger] buffer@[i] == 0,
                forall|i: int| 0 <= i < c ==> #[trigger] buffer@[dict_size + i] == old(source).remaining()[1 + i],
                forall|i: int| c <= i < buff_size ==> #[trigger] buffer@[dict_size + i] == 0,
            decreases dict_size - 1 - j,
        {
            buffer.set(j, seed);
            j += 1;
        }
        let w = EncoderReader { size, buffer, offset: 0, missing };
        proof {
            let rem = old(source).remaining();
            let cc = c as int;
            assert(rem[0] == seed);
            assert(cc == vstd::math::min(buff_size as int, rem.len() - 1));
            let iw = initial_window(dict_size as int, buff_size as int, rem);
            assert forall|i: int| 0 <= i < size implies w.win()[i] == iw[i] by {
                assert(w.win()[i] == w.buffer@[i]);
                if i < dict_size {
                    if i < dict_size - 1 {
                        assert(w.buffer@[i] == seed);
                    }
                } else if i < dict_size + cc {
                    assert(w.buffer@[dict_size + (i - dict_size)] == rem[1 + (i - dict_size)]);
                } else {
                    assert(w.buffer@[dict_size + (i - dict_size)] == 0);
                }
            }
            assert(w.win() =~= iw);
        }
        Ok(w)
    }

    /// Lays a window directly over the given bytes, logical order equal to
    /// storage order, with nothing missing. The match search works over any
    /// window, however it was produced; this gives callers one to probe it
    /// with.
    pub fn from_window(window: Vec<u8>) -> (r: EncoderReader)
        requires
            1 <= window.len() <= usize::MAX / 2,
        ensures
            r.wf(),
            r.win() == window@,
            r.spec_missing() == 0,
    {
        let size = window.len();
        let r = EncoderReader { size, buffer: window, offset: 0, missing: 0 };
        proof {
            assert(r.win() =~= r.buffer@);
        }
        r
    }

    /// Slides the window forward by `target` positions, refilling the slots
    /// that fall off the dictionary end with up to `target` fresh bytes from
    /// the source; the shortfall joins the missing count. Returns how many
    /// bytes were actually read.
    pub fn load(&mut self, source: &mut ByteSource, target: usize) -> (r: usize)
        requires
            old(self).wf(),
            old(source).wf(),
            1 <= target < old(self).win().len(),
            old(self).spec_missing() + target <= usize::MAX,
        ensures
            final(self).wf(),
            final(source).wf(),
            final(self).win().len() == old(self).win().len(),
            r == vstd::math::min(target as int, old(source).remaining().len() as int),
            final(self).win() == old(self).win().skip(target as int) + old(source).remaining().take(r as int) + old(self).win().subrange(r as int, target as int),
            final(self).spec_missing() == old(self).spec_missing() + (target - r),
            final(self).spec_missing() >= old(self).spec_missing(),
            final(source).remaining() == old(source).remaining().skip(r as int),
    {
        let mut j: usize = 0;
        let mut done = false;
        while j < target && !done
            invariant
                j <= target,
                source.wf(),
                self.size == old(self).size,
                self.offset == old(self).offset,
                self.missing == old(self).missing,
                self.wf(),
                source.remaining() == old(source).remaining().skip(j as int),
                j <= old(source).remaining().len(),
                done ==> source.remaining().len() == 0,
                self.win() == old(source).remaining().take(j as int) + old(self).win().skip(
                    j as int,
                ),
            decreases target - j, (if done {
                0int
            } else {
                1int
            }),
        {
            match source.read_byte() {
                Some(b) => {
                    proof {
                        assert(source.remaining() =~= old(source).remaining().skip(j + 1));
                        assert(b == old(source).remaining()[j as int]);
                    }
                    let ghost prev = self.win();
                    let idx = if j < self.size - self.offset {
                        self.offset + j
                    } else {
                        j - (self.size - self.offset)
                    };
                    self.buffer.set(idx, b);
                    proof {
                        let m = self.size as int;
                        let o = self.offset as int;
                        assert forall|i: int| 0 <= i < m implies self.win()[i] == prev.update(
                            j as int,
                            b,
                        )[i] by {
                            if i != j {
                                if o + i < m {
                                    assert(o + i != idx);
                                } else {
                                    assert(o + i - m != idx);
                                }
                            }
                        }
                        assert(self.win() =~= prev.update(j as int, b));
                        assert(self.win() =~= old(source).remaining().take(j + 1) + old(
                            self,
                        ).win().skip(j + 1));
                    }
                    j += 1;
                },
                None => {
                    done = true;
                },
            }
        }
        let ghost buf = self.buffer@;
        let ghost o = self.offset as int;
        let ghost mid = self.win();
        self.missing = self.missing + (target - j);
        self.offset = if target < self.size - self.offset {
            self.offset + target
        } else {
            self.offset + target - self.size
        };
        proof {
            let m = buf.len() as int;
            let k = target as int;
            let jj = j as int;
            let rem = old(source).remaining();
            lemma_ring_shift(buf, o, k);
            assert(self.win() == mid.skip(k) + mid.take(k));
            assert(mid.skip(k) =~= old(self).win().skip(k));
            assert(mid.take(k) =~= rem.take(jj) + old(self).win().subrange(jj, k));
            assert(self.win() =~= old(self).win().skip(k) + rem.take(jj) + old(
                self,
            ).win().subrange(jj, k));
        }
        j
    }

    /// Reads the byte at logical window position `i`.
    pub fn get(&self, i: usize) -> (b: u8)
        requires
            self.wf(),
            i < self.win().len(),
        ensures
            b == self.win()[i as int],
    {
        let idx = if i < self.size - self.offset {
            self.offset + i
        } else {
            i - (self.size - self.offset)
        };
        self.buffer[idx]
    }

    /// A well-formed window fits the machine's address range.
    pub proof fn lemma_win_len(&self)
        requires
            self.wf(),
        ensures
            1 <= self.win().len() <= usize::MAX / 2,
    {
    }

    /// How many look-ahead slots the source could not fill.
    pub fn missing(&self) -> (r: usize)
        ensures
            r == self.spec_missing(),
    {
        self.missing
    }
}

} // verus!
