//! Hamming distance between two byte sequences of equal length.
use vstd::prelude::*;

verus! {

/// Number of positions at which two sequences differ, counted over the
/// shorter of the two.
pub open spec fn mismatches(a: Seq<u8>, b: Seq<u8>) -> nat
    decreases a.len(),
{
    if a.len() == 0 || b.len() == 0 {
        0
    } else {
        mismatches(a.drop_last(), b.drop_last()) + if a.last() != b.last() {
            1nat
        } else {
            0nat
        }
    }
}

/// Why a distance could not be computed.
#[derive(Debug, Clone, Copy, PartialEq, Eq, Structural)]
pub enum DistanceError {
    /// The two inputs must have the same length but do not.
    LengthMismatch { len1: usize, len2: usize },
}

/// Counts the positions at which `string1` and `string2` differ.
/// Fails with `LengthMismatch` when the lengths differ.
pub fn hamming(string1: &[u8], string2: &[u8]) -> (r: Result<u32, DistanceError>)
    requires
        string1@.len() <= u32::MAX,
    ensures
        string1@.len() == string2@.len() ==> r == Ok::<u32, DistanceError>(
            mismatches(string1@, string2@) as u32,
        ),
        string1@.len() != string2@.len() ==> r == Err::<u32, DistanceError>(
            DistanceError::LengthMismatch { len1: string1@.len() as usize, len2: string2@.len() as usize },
        ),
{
    if string1.len() != string2.len() {
        return Err(DistanceError::LengthMismatch { len1: string1.len(), len2: string2.len() });
    }
    let mut count: u32 = 0;
    let mut i: usize = 0;
    while i < string1.len()
        invariant
            i <= string1@.len(),
            string1@.len() == string2@.len(),
            string1@.len() <= u32::MAX,
            count == mismatches(string1@.subrange(0, i as int), string2@.subrange(0, i as int)),
        decreases string1@.len() - i,
    {
        proof {
            lemma_mismatches_bounded(string1@.subrange(0, i as int), string2@.subrange(0, i as int));
            let a1 = string1@.subrange(0, i + 1);
            let b1 = string2@.subrange(0, i + 1);
            assert(a1.drop_last() =~= string1@.subrange(0, i as int));
            assert(b1.drop_last() =~= string2@.subrange(0, i as int));
        }
        if string1[i] != string2[i] {
            count = count + 1;
        }
        i = i + 1;
    }
    proof {
        assert(string1@.subrange(0, i as int) =~= string1@);
        assert(string2@.subrange(0, i as int) =~= string2@);
    }
    Ok(count)
}

/// The count never exceeds the length of the first sequence.
pub proof fn lemma_mismatches_bounded(a: Seq<u8>, b: Seq<u8>)
    ensures
        mismatches(a, b) <= a.len(),
    decreases a.len(),
{
    if a.len() > 0 && b.len() > 0 {
        lemma_mismatches_bounded(a.drop_last(), b.drop_last());
    }
}

/// Hamming distance is symmetric, is zero between a sequence and itself,
/// and lies between zero and the common length.
pub proof fn lemma_hamming_laws(a: Seq<u8>, b: Seq<u8>)
    requires
        a.len() == b.len(),
    ensures
        mismatches(a, b) == mismatches(b, a),
        mismatches(a, a) == 0,
        0 <= mismatches(a, b) <= a.len(),
    decreases a.len(),
{
    lemma_mismatches_bounded(a, b);
    if a.len() > 0 {
        lemma_hamming_laws(a.drop_last(), b.drop_last());
    }
}

} // verus!
