//! Levenshtein (edit) distance with unit costs.
use vstd::prelude::*;

verus! {

pub open spec fn min3(x: nat, y: nat, z: nat) -> nat {
    if x <= y && x <= z {
        x
    } else if y <= z {
        y
    } else {
        z
    }
}

/// Least number of single-symbol insertions, deletions and substitutions
/// that turn `a` into `b`.
pub open spec fn edit_distance(a: Seq<u8>, b: Seq<u8>) -> nat
    decreases a.len() + b.len(),
{
    if a.len() == 0 {
        b.len()
    } else if b.len() == 0 {
        a.len()
    } else {
        min3(
            edit_distance(a.drop_last(), b) + 1,
            edit_distance(a, b.drop_last()) + 1,
            edit_distance(a.drop_last(), b.drop_last()) + if a.last() == b.last() {
                0nat
            } else {
                1nat
            },
        )
    }
}

/// The distance lies between the difference of the lengths and the larger length.
pub proof fn lemma_edit_distance_bounds(a: Seq<u8>, b: Seq<u8>)
    ensures
        edit_distance(a, b) <= if a.len() >= b.len() { a.len() } else { b.len() },
        edit_distance(a, b) >= a.len() - b.len(),
        edit_distance(a, b) >= b.len() - a.len(),
    decreases a.len() + b.len(),
{
    if a.len() > 0 && b.len() > 0 {
        lemma_edit_distance_bounds(a.drop_last(), b);
        lemma_edit_distance_bounds(a, b.drop_last());
        lemma_edit_distance_bounds(a.drop_last(), b.drop_last());
    }
}

/// Computes the edit distance between `string1` and `string2`, keeping two
/// rows of the table, one row for each symbol of `string2`.
pub fn levenshtein(string1: &[u8], string2: &[u8]) -> (r: u32)
    requires
        string1@.len() < u32::MAX,
        string2@.len() < u32::MAX,
    ensures
        r == edit_distance(string1@, string2@),
{
    let n = string1.len();
    let mut prev: Vec<u32> = Vec::new();
    let mut k: usize = 0;
    while k <= n
        invariant
            k <= n + 1,
            n == string1@.len(),
            n < u32::MAX,
            prev@.len() == k,
            forall|c: int| 0 <= c < k ==> prev@[c] == edit_distance(string1@.subrange(0, c), seq![]),
        decreases n + 1 - k,
    {
        proof {
            lemma_edit_distance_bounds(string1@.subrange(0, k as int), seq![]);
        }
        prev.push(k as u32);
        k = k + 1;
    }
    let mut row: usize = 0;
    while row < string2.len()
        invariant
            n == string1@.len(),
            n < u32::MAX,
            string2@.len() < u32::MAX,
            row <= string2@.len(),
            prev@.len() == n + 1,
            forall|c: int|
                0 <= c <= n ==> prev@[c] == edit_distance(
                    string1@.subrange(0, c),
                    string2@.subrange(0, row as int),
                ),
        decreases string2@.len() - row,
    {
        let ghost b = string2@.subrange(0, row + 1);
        proof {
            assert(b.drop_last() =~= string2@.subrange(0, row as int));
            assert(string1@.subrange(0, 0) =~= seq![]);
            lemma_edit_distance_bounds(seq![], b);
        }
        let mut curr: Vec<u32> = Vec::new();
        curr.push(row as u32 + 1);
        let mut column: usize = 0;
        while column < n
            invariant
                n == string1@.len(),
                n < u32::MAX,
                string2@.len() < u32::MAX,
                row < string2@.len(),
                b == string2@.subrange(0, row + 1),
                b.drop_last() == string2@.subrange(0, row as int),
                column <= n,
                prev@.len() == n + 1,
                curr@.len() == column + 1,
                forall|c: int|
                    0 <= c <= n ==> prev@[c] == edit_distance(
                        string1@.subrange(0, c),
                        string2@.subrange(0, row as int),
                    ),
                forall|c: int| 0 <= c <= column ==> curr@[c] == edit_distance(string1@.subrange(0, c), b),
            decreases n - column,
        {
            let ghost a = string1@.subrange(0, column + 1);
            proof {
                assert(a.drop_last() =~= string1@.subrange(0, column as int));
                lemma_edit_distance_bounds(a, b);
                lemma_edit_distance_bounds(a.drop_last(), b);
                lemma_edit_distance_bounds(a, b.drop_last());
                lemma_edit_distance_bounds(a.drop_last(), b.drop_last());
            }
            let deletion_cost = prev[column + 1] + 1;
            let insertion_cost = curr[column] + 1;
            let substitution_cost = prev[column] + if string1[column] == string2[row] {
                0u32
            } else {
                1u32
            };
            let best = if substitution_cost <= deletion_cost && substitution_cost <= insertion_cost {
                substitution_cost
            } else if deletion_cost <= insertion_cost {
                deletion_cost
            } else {
                insertion_cost
            };
            curr.push(best);
            column = column + 1;
        }
        prev = curr;
        row = row + 1;
    }
    proof {
        assert(string1@.subrange(0, n as int) =~= string1@);
        assert(string2@.subrange(0, row as int) =~= string2@);
    }
    prev[n]
}

/// Edit distance is symmetric.
pub proof fn lemma_edit_distance_symmetric(a: Seq<u8>, b: Seq<u8>)
    ensures
        edit_distance(a, b) == edit_distance(b, a),
    decreases a.len() + b.len(),
{
    if a.len() > 0 && b.len() > 0 {
        lemma_edit_distance_symmetric(a.drop_last(), b);
        lemma_edit_distance_symmetric(a, b.drop_last());
        lemma_edit_distance_symmetric(a.drop_last(), b.drop_last());
    }
}

/// Edit distance is zero exactly when the two sequences are equal.
pub proof fn lemma_edit_distance_zero_iff_equal(a: Seq<u8>, b: Seq<u8>)
    ensures
        edit_distance(a, b) == 0 <==> a == b,
    decreases a.len() + b.len(),
{
    if a.len() > 0 && b.len() > 0 {
        lemma_edit_distance_zero_iff_equal(a.drop_last(), b.drop_last());
        if a == b {
            assert(a.drop_last() == b.drop_last());
        }
        if edit_distance(a, b) == 0 {
            assert(a.drop_last() == b.drop_last());
            assert(a =~= a.drop_last().push(a.last()));
            assert(b =~= b.drop_last().push(b.last()));
        }
    } else if a.len() == 0 && b.len() == 0 {
        assert(a =~= b);
    }
}

/// Edit distance obeys the triangle inequality.
pub proof fn lemma_edit_distance_triangle(a: Seq<u8>, b: Seq<u8>, c: Seq<u8>)
    ensures
        edit_distance(a, c) <= edit_distance(a, b) + edit_distance(b, c),
    decreases a.len() + b.len() + c.len(),
{
    lemma_edit_distance_bounds(a, b);
    lemma_edit_distance_bounds(b, c);
    lemma_edit_distance_bounds(a, c);
    if a.len() == 0 || b.len() == 0 || c.len() == 0 {
    } else {
        let (a1, b1, c1) = (a.drop_last(), b.drop_last(), c.drop_last());
        lemma_edit_distance_triangle(a1, b, c);
        lemma_edit_distance_triangle(a, b, c1);
        lemma_edit_distance_triangle(a, b1, c);
        lemma_edit_distance_triangle(a, b1, c1);
        lemma_edit_distance_triangle(a1, b1, c);
        lemma_edit_distance_triangle(a1, b1, c1);
    }
}

} // verus!
