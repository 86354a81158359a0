//! Items shared by the global and the local aligner.
use vstd::prelude::*;

verus! {

/// The symbol written in an aligned sequence where the other sequence
/// advances alone.
pub const GAP: u8 = 45;

/// Which step of the recurrence produced a cell.
#[derive(Debug, Clone, Copy, PartialEq, Eq, Structural)]
pub enum Source {
    Start,
    MatchMismatch,
    Insertion,
    Deletion,
}

/// `s` read from its last element to its first.
pub open spec fn backwards(s: Seq<u8>) -> Seq<u8> {
    Seq::new(s.len(), |k: int| s[s.len() - 1 - k])
}

/// `s` with every gap marker taken out.
pub open spec fn strip_gaps(s: Seq<u8>) -> Seq<u8>
    decreases s.len(),
{
    if s.len() == 0 {
        s
    } else if s.last() == GAP {
        strip_gaps(s.drop_last())
    } else {
        strip_gaps(s.drop_last()).push(s.last())
    }
}

pub open spec fn gap_free(s: Seq<u8>) -> bool {
    forall|k: int| 0 <= k < s.len() ==> s[k] != GAP
}

pub proof fn lemma_backwards_push(s: Seq<u8>, x: u8)
    ensures
        backwards(s.push(x)) == seq![x] + backwards(s),
{
    assert(backwards(s.push(x)) =~= seq![x] + backwards(s));
}

/// Returns `v` in reverse order.
pub fn reversed(v: &Vec<u8>) -> (r: Vec<u8>)
    ensures
        r@ == backwards(v@),
{
    let mut r: Vec<u8> = Vec::new();
    let mut k: usize = v.len();
    while k > 0
        invariant
            k <= v@.len(),
            r@.len() == v@.len() - k,
            forall|t: int| 0 <= t < r@.len() ==> r@[t] == v@[v@.len() - 1 - t],
        decreases k,
    {
        k = k - 1;
        r.push(v[k]);
    }
    assert(r@ =~= backwards(v@));
    r
}

} // verus!
