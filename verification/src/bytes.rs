//! Small tools on byte strings that the parsers and writers share.

use vstd::prelude::*;

verus! {

/// The index of the first `byte` in `s`, or `s.len()` where there is none.
pub open spec fn position(s: Seq<u8>, byte: u8) -> int
    decreases s.len(),
{
    if s.len() == 0 || s[0] == byte {
        0
    } else {
        1 + position(s.drop_first(), byte)
    }
}

/// `position` is within bounds, no `byte` stands before it, and one stands
/// at it unless it is the length.
pub proof fn lemma_position(s: Seq<u8>, byte: u8)
    ensures
        0 <= position(s, byte) <= s.len(),
        forall|j: int| 0 <= j < position(s, byte) ==> s[j] != byte,
        position(s, byte) < s.len() ==> s[position(s, byte)] == byte,
    decreases s.len(),
{
    if s.len() == 0 || s[0] == byte {
    } else {
        let rest = s.drop_first();
        lemma_position(rest, byte);
        assert forall|j: int| 0 <= j < position(s, byte) implies s[j] != byte by {
            if j > 0 {
                assert(s[j] == rest[j - 1]);
            }
        }
    }
}

/// An index that no `byte` precedes, and that holds one or is the length,
/// is the `position`.
pub proof fn lemma_position_is(s: Seq<u8>, byte: u8, at: int)
    requires
        0 <= at <= s.len(),
        forall|j: int| 0 <= j < at ==> s[j] != byte,
        at < s.len() ==> s[at] == byte,
    ensures
        position(s, byte) == at,
{
    lemma_position(s, byte);
    let p = position(s, byte);
    if p < at {
        assert(s[p] != byte);
    } else if at < p {
        assert(s[at] == byte);
    }
}

/// Finds the first `byte` in `s`.
pub fn find(s: &[u8], byte: u8) -> (at: usize)
    ensures
        at == position(s@, byte),
        at <= s@.len(),
{
    let mut at: usize = 0;
    while at < s.len() && s[at] != byte
        invariant
            at <= s.len(),
            forall|j: int| 0 <= j < at ==> s@[j] != byte,
        decreases s.len() - at,
    {
        at += 1;
    }
    proof {
        lemma_position_is(s@, byte, at as int);
    }
    at
}

/// Appends `src` to `out`.
pub fn append(out: &mut Vec<u8>, src: &[u8])
    ensures
        final(out)@ == old(out)@ + src@,
{
    let mut i: usize = 0;
    while i < src.len()
        invariant
            i <= src.len(),
            out@ == old(out)@ + src@.take(i as int),
        decreases src.len() - i,
    {
        out.push(src[i]);
        i += 1;
        assert(out@ =~= old(out)@ + src@.take(i as int));
    }
    assert(src@.take(src.len() as int) =~= src@);
}

/// Whether two byte strings are the same.
pub fn equal(a: &[u8], b: &[u8]) -> (same: bool)
    ensures
        same == (a@ == b@),
{
    if a.len() != b.len() {
        return false;
    }
    let mut i: usize = 0;
    while i < a.len()
        invariant
            i <= a.len(),
            a.len() == b.len(),
            forall|j: int| 0 <= j < i ==> a@[j] == b@[j],
        decreases a.len() - i,
    {
        if a[i] != b[i] {
            return false;
        }
        i += 1;
    }
    assert(a@ =~= b@);
    true
}

} // verus!
