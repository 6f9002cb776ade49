use vstd::prelude::*;

use crate::encoder_reader::EncoderReader;

verus! {

/// A candidate back-reference into the window `w` whose dictionary spans
/// positions `0..d` and whose valid look-ahead spans `d..d + v`: the `n`
/// look-ahead bytes starting at position `d` also appear starting at
/// dictionary position `s`. The run may leave the dictionary only when
/// `extend` allows it, and never leaves the valid look-ahead.
pub open spec fn is_match(w: Seq<u8>, d: int, v: int, extend: bool, s: int, n: int) -> bool {
    &&& 0 <= s < d
    &&& 1 <= n <= v
    &&& (forall|jj: int| 0 <= jj < n ==> #[trigger] w[s + jj] == w[d + jj])
    &&& (s + n <= d || (extend && s + n <= d + v))
}

/// What the match search returns: the longest match, the leftmost one among
/// equally long ones, or `(0, 0)` when no match exists at all.
pub open spec fn is_best_match(
    w: Seq<u8>,
    d: int,
    v: int,
    extend: bool,
    s: int,
    n: int,
) -> bool {
    if exists|s2: int, n2: int| is_match(w, d, v, extend, s2, n2) {
        &&& is_match(w, d, v, extend, s, n)
        &&& (forall|s2: int, n2: int| is_match(w, d, v, extend, s2, n2) ==> n2 <= n)
        &&& (forall|s2: int| is_match(w, d, v, extend, s2, n) ==> s <= s2)
    } else {
        s == 0 && n == 0
    }
}

/// Only one pair satisfies `is_best_match`, so the search result is a
/// function of the window state alone.
pub proof fn lemma_best_match_unique(
    w: Seq<u8>,
    d: int,
    v: int,
    extend: bool,
    s1: int,
    n1: int,
    s2: int,
    n2: int,
)
    requires
        is_best_match(w, d, v, extend, s1, n1),
        is_best_match(w, d, v, extend, s2, n2),
    ensures
        s1 == s2,
        n1 == n2,
{
    if exists|s3: int, n3: int| is_match(w, d, v, extend, s3, n3) {
        assert(n1 <= n2 && n2 <= n1);
        assert(s1 <= s2 && s2 <= s1);
    }
}

/// Scans every dictionary start for the longest run of bytes equal to the
/// look-ahead, and returns the longest match, leftmost on ties, or `(0, 0)`
/// when not even one byte matches.
pub fn find_largest_subset(
    window: &EncoderReader,
    dict_size: usize,
    lookahead: usize,
    extend_into_input: bool,
) -> (r: (usize, usize))
    requires
        window.wf(),
        1 <= dict_size,
        dict_size + lookahead <= window.win().len(),
    ensures
        is_best_match(
            window.win(),
            dict_size as int,
            lookahead as int,
            extend_into_input,
            r.0 as int,
            r.1 as int,
        ),
        r.1 <= lookahead,
        r.0 < dict_size,
{
    proof {
        window.lemma_win_len();
    }
    let ghost w = window.win();
    let ghost dd = dict_size as int;
    let ghost vv = lookahead as int;
    let d = dict_size;
    let v = lookahead;
    let bound = if extend_into_input {
        d + v
    } else {
        d
    };
    let mut best_start: usize = 0;
    let mut best_size: usize = 0;
    let mut start: usize = 0;
    while start < d
        invariant
            start <= d,
            best_size <= v,
            best_start < d,
            best_size == 0 ==> best_start == 0,
            best_size > 0 ==> is_match(w, dd, vv, extend_into_input, best_start as int,
                best_size as int) && best_start < start,
            forall|s2: int, n2: int|
                0 <= s2 < start && #[trigger] is_match(w, dd, vv, extend_into_input, s2, n2)
                    ==> n2 <= best_size,
            forall|s2: int|
                0 <= s2 < start && #[trigger] is_match(w, dd, vv, extend_into_input, s2,
                    best_size as int,
                ) ==> best_start <= s2,
        decreases d - start,
    {
        let limit = if v < bound - start {
            v
        } else {
            bound - start
        };
        let mut n: usize = 0;
        while n < limit && window.get(start + n) == window.get(d + n)
            invariant
                n <= limit,
                limit <= v,
                start + limit <= bound,
                forall|jj: int| 0 <= jj < n ==> #[trigger] w[start + jj] == w[dd + jj],
            decreases limit - n,
        {
            n += 1;
        }
        proof {
            assert(n == limit || w[start + n] != w[dd + n]);
            assert forall|n2: int|
                #[trigger] is_match(w, dd, vv, extend_into_input, start as int, n2) implies n2
                <= n by {
                if n2 > n {
                    assert(n2 <= limit);
                    assert(w[start + n] == w[dd + n]);
                }
            }
            if n > 0 {
                assert(is_match(w, dd, vv, extend_into_input, start as int, n as int));
            }
        }
        if n > best_size {
            best_start = start;
            best_size = n;
        }
        start += 1;
    }
    (best_start, best_size)
}

} // verus!
