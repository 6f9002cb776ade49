use vstd::prelude::*;

verus! {

/// The verdict of holding two byte streams against each other.
#[derive(Debug, Clone, Copy, PartialEq, Eq, Structural)]
pub enum CompareOutcome {
    /// The streams are byte-identical and this long.
    Identical { len: usize },
    /// The first position where the streams disagree, with both bytes.
    DifferentContent { at: usize, left: u8, right: u8 },
    /// One stream ended before the other; both lengths.
    DifferentSize { left_len: usize, right_len: usize },
}

/// Compares two byte streams: reports the first differing position within
/// the common prefix, else a size difference, else success with the common
/// length.
pub fn compare_bytes(a: &Vec<u8>, b: &Vec<u8>) -> (r: CompareOutcome)
    ensures
        r matches CompareOutcome::Identical { len } ==> a@ == b@ && len == a@.len(),
        r matches CompareOutcome::DifferentContent { at, left, right } ==> at < a@.len() && at
            < b@.len() && left == a@[at as int] && right == b@[at as int] && left != right && (
        forall|i: int| 0 <= i < at ==> a@[i] == b@[i]),
        r matches CompareOutcome::DifferentSize { left_len, right_len } ==> left_len == a@.len() && right_len
            == b@.len() && left_len != right_len && (forall|i: int|
            0 <= i < vstd::math::min(a@.len() as int, b@.len() as int) ==> a@[i] == b@[i]),
        a@ == b@ ==> r == (CompareOutcome::Identical { len: a.len() }),
{
    let shorter: usize = if a.len() < b.len() {
        a.len()
    } else {
        b.len()
    };
    let mut i: usize = 0;
    while i < shorter
        invariant
            i <= shorter,
            shorter == vstd::math::min(a@.len() as int, b@.len() as int),
            forall|k: int| 0 <= k < i ==> a@[k] == b@[k],
        decreases shorter - i,
    {
        if a[i] != b[i] {
            return CompareOutcome::DifferentContent { at: i, left: a[i], right: b[i] };
        }
        i += 1;
    }
    if a.len() != b.len() {
        return CompareOutcome::DifferentSize { left_len: a.len(), right_len: b.len() };
    }
    proof {
        assert(a@ =~= b@);
    }
    CompareOutcome::Identical { len: a.len() }
}

} // verus!
