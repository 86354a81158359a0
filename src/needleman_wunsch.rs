//! Global alignment (Needleman-Wunsch) with rolling score rows and a full
//! grid of source tags.
//!
//! A mismatch costs one; a run of insertions or of deletions costs one
//! however long it is. Ties go to the diagonal, then to a deletion, then to
//! an insertion.
use vstd::prelude::*;
use crate::alignment::{Source, GAP, backwards, reversed, lemma_backwards_push, strip_gaps, gap_free};

verus! {

/// Score and source tag of cell `(i, j)` of the grid for `s1` (rows)
/// against `s2` (columns).
pub open spec fn nw_cell(s1: Seq<u8>, s2: Seq<u8>, i: nat, j: nat) -> (nat, Source)
    decreases i + j,
{
    if i == 0 {
        (j, Source::Insertion)
    } else if j == 0 {
        (i, Source::Deletion)
    } else {
        let diag = nw_cell(s1, s2, (i - 1) as nat, (j - 1) as nat).0 + if s1[i - 1] != s2[j - 1] {
            1nat
        } else {
            0nat
        };
        let up = nw_cell(s1, s2, (i - 1) as nat, j);
        let del = up.0 + if up.1 != Source::Deletion {
            1nat
        } else {
            0nat
        };
        let left = nw_cell(s1, s2, i, (j - 1) as nat);
        let ins = left.0 + if left.1 != Source::Insertion {
            1nat
        } else {
            0nat
        };
        if diag <= ins && diag <= del {
            (diag, Source::MatchMismatch)
        } else if del <= ins {
            (del, Source::Deletion)
        } else {
            (ins, Source::Insertion)
        }
    }
}

/// The alignment read back from cell `(i, j)` to the origin by following
/// the tags.
pub open spec fn nw_aligned(s1: Seq<u8>, s2: Seq<u8>, i: nat, j: nat) -> (Seq<u8>, Seq<u8>)
    decreases i + j,
{
    if i == 0 && j == 0 {
        (seq![], seq![])
    } else {
        let t = nw_cell(s1, s2, i, j).1;
        if i > 0 && j > 0 && t == Source::MatchMismatch {
            let p = nw_aligned(s1, s2, (i - 1) as nat, (j - 1) as nat);
            (p.0.push(s1[i - 1]), p.1.push(s2[j - 1]))
        } else if j > 0 && (i == 0 || t == Source::Insertion) {
            let p = nw_aligned(s1, s2, i, (j - 1) as nat);
            (p.0.push(GAP), p.1.push(s2[j - 1]))
        } else {
            let p = nw_aligned(s1, s2, (i - 1) as nat, j);
            (p.0.push(s1[i - 1]), p.1.push(GAP))
        }
    }
}

/// The global alignment of `a` and `b`, in argument order. The longer
/// sequence gives the rows of the grid; `a` does on equal lengths.
pub open spec fn global_alignment(a: Seq<u8>, b: Seq<u8>) -> (Seq<u8>, Seq<u8>) {
    if a.len() >= b.len() {
        nw_aligned(a, b, a.len(), b.len())
    } else {
        let p = nw_aligned(b, a, b.len(), a.len());
        (p.1, p.0)
    }
}

#[derive(Debug, Clone, Copy)]
struct Entry {
    value: usize,
    source: Source,
}

impl Entry {
    fn new(value: usize, source: Source) -> (r: Entry)
        ensures
            r.value == value,
            r.source == source,
    {
        Entry { value, source }
    }
}

struct Aligner {
    alignment1: Vec<u8>,
    alignment2: Vec<u8>,
    row: usize,
    col: usize,
}

impl Aligner {
    fn new(length1: usize, length2: usize) -> (r: Aligner)
        ensures
            r.alignment1@ == Seq::<u8>::empty(),
            r.alignment2@ == Seq::<u8>::empty(),
            r.row == length1,
            r.col == length2,
    {
        Aligner { alignment1: Vec::new(), alignment2: Vec::new(), row: length1, col: length2 }
    }

    fn shift_matchmismatch(&mut self)
        requires
            old(self).row > 0,
            old(self).col > 0,
        ensures
            final(self).row == old(self).row - 1,
            final(self).col == old(self).col - 1,
            final(self).alignment1 == old(self).alignment1,
            final(self).alignment2 == old(self).alignment2,
    {
        self.row = self.row - 1;
        self.col = self.col - 1;
    }

    fn shift_insertion(&mut self)
        requires
            old(self).col > 0,
        ensures
            final(self).row == old(self).row,
            final(self).col == old(self).col - 1,
            final(self).alignment1 == old(self).alignment1,
            final(self).alignment2 == old(self).alignment2,
    {
        self.col = self.col - 1;
    }

    fn shift_deletion(&mut self)
        requires
            old(self).row > 0,
        ensures
            final(self).row == old(self).row - 1,
            final(self).col == old(self).col,
            final(self).alignment1 == old(self).alignment1,
            final(self).alignment2 == old(self).alignment2,
    {
        self.row = self.row - 1;
    }
}

/// Every score is at most the sum of the cell's coordinates.
pub proof fn lemma_nw_score_bounded(s1: Seq<u8>, s2: Seq<u8>, i: nat, j: nat)
    ensures
        nw_cell(s1, s2, i, j).0 <= i + j,
    decreases i + j,
{
    if i > 0 && j > 0 {
        lemma_nw_score_bounded(s1, s2, (i - 1) as nat, (j - 1) as nat);
        lemma_nw_score_bounded(s1, s2, (i - 1) as nat, j);
        lemma_nw_score_bounded(s1, s2, i, (j - 1) as nat);
    }
}

spec fn holds_cell(e: Entry, s1: Seq<u8>, s2: Seq<u8>, i: nat, j: nat) -> bool {
    e.value == nw_cell(s1, s2, i, j).0 && e.source == nw_cell(s1, s2, i, j).1
}

/// Appends the tags of one row of entries to the grid.
fn append_tags(grid: &mut Vec<Source>, entries: &Vec<Entry>)
    ensures
        final(grid)@.len() == old(grid)@.len() + entries@.len(),
        forall|k: int| 0 <= k < old(grid)@.len() ==> final(grid)@[k] == old(grid)@[k],
        forall|c: int| 0 <= c < entries@.len() ==> final(grid)@[old(grid)@.len() + c] == entries@[c].source,
{
    let ghost start = grid@;
    let mut c: usize = 0;
    while c < entries.len()
        invariant
            c <= entries@.len(),
            grid@.len() == start.len() + c,
            forall|k: int| 0 <= k < start.len() ==> grid@[k] == start[k],
            forall|k: int| 0 <= k < c ==> grid@[start.len() + k] == entries@[k].source,
        decreases entries@.len() - c,
    {
        grid.push(entries[c].source);
        c = c + 1;
    }
}

/// Cell `(r, c)` of a grid `width` wide lies inside a grid of `height`
/// rows, at `r * width + c`.
proof fn lemma_cell_index(r: int, c: int, height: int, width: int)
    requires
        0 <= r < height,
        0 <= c < width,
    ensures
        0 <= r * width + c < height * width,
        r * width + c < (r + 1) * width,
        (r + 1) * width == r * width + width,
{
    assert(0 <= r * width + c < height * width) by (nonlinear_arith)
        requires
            0 <= r < height,
            0 <= c < width,
    ;
    assert((r + 1) * width == r * width + width) by (nonlinear_arith);
}

/// Appending the entries of row `r` to a grid that holds rows `0..r` gives
/// a grid that holds rows `0..=r`.
proof fn lemma_row_appended(
    before: Seq<Source>,
    after: Seq<Source>,
    row: Seq<Entry>,
    s1: Seq<u8>,
    s2: Seq<u8>,
    r: int,
    width: int,
)
    requires
        r >= 0,
        width == s2.len() + 1,
        row.len() == width,
        before.len() == r * width,
        forall|q: int, c: int|
            0 <= q < r && 0 <= c < width ==> before[q * width + c] == #[trigger] nw_cell(s1, s2, q as nat, c as nat).1,
        forall|c: int| 0 <= c < width ==> holds_cell(#[trigger] row[c], s1, s2, r as nat, c as nat),
        after.len() == before.len() + row.len(),
        forall|k: int| 0 <= k < before.len() ==> after[k] == before[k],
        forall|c: int| 0 <= c < row.len() ==> after[before.len() + c] == row[c].source,
    ensures
        after.len() == (r + 1) * width,
        forall|q: int, c: int|
            0 <= q <= r && 0 <= c < width ==> after[q * width + c] == #[trigger] nw_cell(s1, s2, q as nat, c as nat).1,
{
    assert((r + 1) * width == r * width + width) by (nonlinear_arith);
    assert forall|q: int, c: int| 0 <= q <= r && 0 <= c < width implies after[q * width + c] == #[trigger] nw_cell(
        s1,
        s2,
        q as nat,
        c as nat,
    ).1 by {
        if q < r {
            lemma_cell_index(q, c, r, width);
        } else {
            assert(holds_cell(row[c], s1, s2, r as nat, c as nat));
        }
    }
}

proof fn lemma_grid_fits(n: int, m: int)
    requires
        n >= 0,
        m >= 0,
        (n + 1) * (m + 1) <= usize::MAX,
    ensures
        n + m < usize::MAX,
        (m + 1) * (n + 1) <= usize::MAX,
{
    assert(n + m + 1 <= (n + 1) * (m + 1)) by (nonlinear_arith)
        requires
            n >= 0,
            m >= 0,
    ;
    assert((m + 1) * (n + 1) == (n + 1) * (m + 1)) by (nonlinear_arith);
}

/// Fills the tag grid of `seq1` (rows) against `seq2` (columns), keeping
/// only two rows of scores alive.
fn fill_tags(seq1: &[u8], seq2: &[u8]) -> (grid: Vec<Source>)
    requires
        seq1@.len() + seq2@.len() < usize::MAX,
    ensures
        grid@.len() == (seq1@.len() + 1) * (seq2@.len() + 1),
        forall|r: int, c: int|
            0 <= r <= seq1@.len() && 0 <= c <= seq2@.len() ==> grid@[r * (seq2@.len() + 1) + c] == #[trigger] nw_cell(
                seq1@,
                seq2@,
                r as nat,
                c as nat,
            ).1,
{
    let ghost s1 = seq1@;
    let ghost s2 = seq2@;
    let rows = seq1.len() + 1;
    let cols = seq2.len() + 1;
    let mut prev: Vec<Entry> = Vec::new();
    let mut c: usize = 0;
    while c < cols
        invariant
            cols == s2.len() + 1,
            c <= cols,
            prev@.len() == c,
            forall|k: int| 0 <= k < c ==> holds_cell(#[trigger] prev@[k], s1, s2, 0, k as nat),
        decreases cols - c,
    {
        prev.push(Entry::new(c, Source::Insertion));
        c = c + 1;
    }
    let mut grid: Vec<Source> = Vec::new();
    let mut row: usize = 1;
    while row < rows
        invariant
            s1 == seq1@,
            s2 == seq2@,
            rows == s1.len() + 1,
            cols == s2.len() + 1,
            s1.len() + s2.len() < usize::MAX,
            1 <= row <= rows,
            prev@.len() == cols,
            forall|k: int| 0 <= k < cols ==> holds_cell(#[trigger] prev@[k], s1, s2, (row - 1) as nat, k as nat),
            grid@.len() == (row - 1) * cols,
            forall|r: int, k: int|
                0 <= r < row - 1 && 0 <= k < cols ==> grid@[r * cols + k] == #[trigger] nw_cell(s1, s2, r as nat, k as nat).1,
        decreases rows - row,
    {
        let mut curr: Vec<Entry> = Vec::new();
        curr.push(Entry::new(row, Source::Deletion));
        let mut col: usize = 1;
        while col < cols
            invariant
                s1 == seq1@,
                s2 == seq2@,
                rows == s1.len() + 1,
                cols == s2.len() + 1,
                s1.len() + s2.len() < usize::MAX,
                1 <= row < rows,
                1 <= col <= cols,
                prev@.len() == cols,
                forall|k: int| 0 <= k < cols ==> holds_cell(#[trigger] prev@[k], s1, s2, (row - 1) as nat, k as nat),
                curr@.len() == col,
                forall|k: int| 0 <= k < col ==> holds_cell(#[trigger] curr@[k], s1, s2, row as nat, k as nat),
            decreases cols - col,
        {
            proof {
                lemma_nw_score_bounded(s1, s2, (row - 1) as nat, (col - 1) as nat);
                lemma_nw_score_bounded(s1, s2, (row - 1) as nat, col as nat);
                lemma_nw_score_bounded(s1, s2, row as nat, (col - 1) as nat);
                assert(holds_cell(prev@[col - 1], s1, s2, (row - 1) as nat, (col - 1) as nat));
                assert(holds_cell(prev@[col as int], s1, s2, (row - 1) as nat, col as nat));
                assert(holds_cell(curr@[col - 1], s1, s2, row as nat, (col - 1) as nat));
            }
            let matchmismatch = Entry::new(
                prev[col - 1].value + if seq1[row - 1] != seq2[col - 1] {
                    1usize
                } else {
                    0usize
                },
                Source::MatchMismatch,
            );
            let insertion = Entry::new(
                curr[col - 1].value + if curr[col - 1].source != Source::Insertion {
                    1usize
                } else {
                    0usize
                },
                Source::Insertion,
            );
            let deletion = Entry::new(
                prev[col].value + if prev[col].source != Source::Deletion {
                    1usize
                } else {
                    0usize
                },
                Source::Deletion,
            );
            if matchmismatch.value <= insertion.value && matchmismatch.value <= deletion.value {
                curr.push(matchmismatch);
            } else if deletion.value <= insertion.value {
                curr.push(deletion);
            } else {
                curr.push(insertion);
            }
            proof {
                assert(holds_cell(curr@[col as int], s1, s2, row as nat, col as nat));
            }
            col = col + 1;
        }
        let ghost before = grid@;
        append_tags(&mut grid, &prev);
        proof {
            lemma_row_appended(before, grid@, prev@, s1, s2, (row - 1) as int, cols as int);
        }
        prev = curr;
        row = row + 1;
    }
    let ghost before = grid@;
    append_tags(&mut grid, &prev);
    proof {
        lemma_row_appended(before, grid@, prev@, s1, s2, (rows - 1) as int, cols as int);
    }
    grid
}

/// Reads the alignment back from the bottom-right corner of a filled grid.
fn trace_back(seq1: &[u8], seq2: &[u8], grid: &Vec<Source>) -> (r: (Vec<u8>, Vec<u8>))
    requires
        (seq1@.len() + 1) * (seq2@.len() + 1) <= usize::MAX,
        grid@.len() == (seq1@.len() + 1) * (seq2@.len() + 1),
        forall|i: int, j: int|
            0 <= i <= seq1@.len() && 0 <= j <= seq2@.len() ==> grid@[i * (seq2@.len() + 1) + j] == #[trigger] nw_cell(
                seq1@,
                seq2@,
                i as nat,
                j as nat,
            ).1,
    ensures
        (r.0@, r.1@) == nw_aligned(seq1@, seq2@, seq1@.len(), seq2@.len()),
{
    let ghost s1 = seq1@;
    let ghost s2 = seq2@;
    let ghost full = nw_aligned(s1, s2, s1.len(), s2.len());
    proof {
        lemma_grid_fits(s1.len() as int, s2.len() as int);
    }
    let width = seq2.len() + 1;
    let mut aligner = Aligner::new(seq1.len(), seq2.len());
    while aligner.row > 0 || aligner.col > 0
        invariant
            s1 == seq1@,
            s2 == seq2@,
            full == nw_aligned(s1, s2, s1.len(), s2.len()),
            width == s2.len() + 1,
            (s1.len() + 1) * width <= usize::MAX,
            grid@.len() == (s1.len() + 1) * width,
            forall|i: int, j: int|
                0 <= i <= s1.len() && 0 <= j <= s2.len() ==> grid@[i * width + j] == #[trigger] nw_cell(s1, s2, i as nat, j as nat).1,
            aligner.row <= s1.len(),
            aligner.col <= s2.len(),
            full.0 == nw_aligned(s1, s2, aligner.row as nat, aligner.col as nat).0 + backwards(aligner.alignment1@),
            full.1 == nw_aligned(s1, s2, aligner.row as nat, aligner.col as nat).1 + backwards(aligner.alignment2@),
        ensures
            aligner.row == 0 && aligner.col == 0,
            full.0 == backwards(aligner.alignment1@),
            full.1 == backwards(aligner.alignment2@),
        decreases aligner.row + aligner.col,
    {
        let ghost (i, j) = (aligner.row as nat, aligner.col as nat);
        let ghost a1 = aligner.alignment1@;
        let ghost a2 = aligner.alignment2@;
        let ghost here = nw_aligned(s1, s2, i, j);
        proof {
            lemma_cell_index(i as int, j as int, s1.len() + 1 as int, width as int);
            let (ii, jj) = (i as int, j as int);
            assert(0 <= ii <= s1.len() && 0 <= jj <= s2.len());
            assert(grid@[ii * width + jj] == nw_cell(s1, s2, ii as nat, jj as nat).1);
        }
        let tag = grid[aligner.row * width + aligner.col];
        match tag {
            Source::MatchMismatch => {
                let x = seq1[aligner.row - 1];
                let y = seq2[aligner.col - 1];
                aligner.alignment1.push(x);
                aligner.alignment2.push(y);
                aligner.shift_matchmismatch();
                proof {
                    let p = nw_aligned(s1, s2, (i - 1) as nat, (j - 1) as nat);
                    lemma_backwards_push(a1, x);
                    lemma_backwards_push(a2, y);
                    assert(here.0 =~= p.0.push(x));
                    assert(here.0 + backwards(a1) =~= p.0 + (seq![x] + backwards(a1)));
                    assert(here.1 + backwards(a2) =~= p.1 + (seq![y] + backwards(a2)));
                }
            },
            Source::Insertion => {
                let y = seq2[aligner.col - 1];
                aligner.alignment1.push(GAP);
                aligner.alignment2.push(y);
                aligner.shift_insertion();
                proof {
                    let p = nw_aligned(s1, s2, i, (j - 1) as nat);
                    lemma_backwards_push(a1, GAP);
                    lemma_backwards_push(a2, y);
                    assert(here.0 + backwards(a1) =~= p.0 + (seq![GAP] + backwards(a1)));
                    assert(here.1 + backwards(a2) =~= p.1 + (seq![y] + backwards(a2)));
                }
            },
            Source::Deletion => {
                let x = seq1[aligner.row - 1];
                aligner.alignment1.push(x);
                aligner.alignment2.push(GAP);
                aligner.shift_deletion();
                proof {
                    let p = nw_aligned(s1, s2, (i - 1) as nat, j);
                    lemma_backwards_push(a1, x);
                    lemma_backwards_push(a2, GAP);
                    assert(here.0 + backwards(a1) =~= p.0 + (seq![x] + backwards(a1)));
                    assert(here.1 + backwards(a2) =~= p.1 + (seq![GAP] + backwards(a2)));
                }
            },
            Source::Start => {
                proof {
                    assert(false);
                }
                break;
            },
        }
    }
    (reversed(&aligner.alignment1), reversed(&aligner.alignment2))
}

/// Globally aligns `seq1` and `seq2`, returning the two aligned sequences in
/// argument order, with `-` where one sequence advances alone.
pub fn needleman_wunsch(seq1: &[u8], seq2: &[u8]) -> (r: (Vec<u8>, Vec<u8>))
    requires
        (seq1@.len() + 1) * (seq2@.len() + 1) <= usize::MAX,
    ensures
        (r.0@, r.1@) == global_alignment(seq1@, seq2@),
{
    proof {
        lemma_grid_fits(seq1@.len() as int, seq2@.len() as int);
    }
    if seq1.len() < seq2.len() {
        let grid = fill_tags(seq2, seq1);
        let (longer, shorter) = trace_back(seq2, seq1, &grid);
        (shorter, longer)
    } else {
        let grid = fill_tags(seq1, seq2);
        trace_back(seq1, seq2, &grid)
    }
}


/// The two rows of the alignment read back from `(i, j)` have one length,
/// and taking the gaps out of them gives back the prefixes of the inputs.
pub proof fn lemma_nw_aligned_rows(s1: Seq<u8>, s2: Seq<u8>, i: nat, j: nat)
    requires
        i <= s1.len(),
        j <= s2.len(),
    ensures
        nw_aligned(s1, s2, i, j).0.len() == nw_aligned(s1, s2, i, j).1.len(),
        gap_free(s1) ==> strip_gaps(nw_aligned(s1, s2, i, j).0) == s1.subrange(0, i as int),
        gap_free(s2) ==> strip_gaps(nw_aligned(s1, s2, i, j).1) == s2.subrange(0, j as int),
    decreases i + j,
{
    let a = nw_aligned(s1, s2, i, j);
    if i == 0 && j == 0 {
        assert(s1.subrange(0, 0) =~= seq![]);
        assert(s2.subrange(0, 0) =~= seq![]);
    } else {
        let t = nw_cell(s1, s2, i, j).1;
        if i > 0 && j > 0 && t == Source::MatchMismatch {
            lemma_nw_aligned_rows(s1, s2, (i - 1) as nat, (j - 1) as nat);
            assert(a.0.drop_last() =~= nw_aligned(s1, s2, (i - 1) as nat, (j - 1) as nat).0);
            assert(a.1.drop_last() =~= nw_aligned(s1, s2, (i - 1) as nat, (j - 1) as nat).1);
        } else if j > 0 && (i == 0 || t == Source::Insertion) {
            lemma_nw_aligned_rows(s1, s2, i, (j - 1) as nat);
            assert(a.0.drop_last() =~= nw_aligned(s1, s2, i, (j - 1) as nat).0);
            assert(a.1.drop_last() =~= nw_aligned(s1, s2, i, (j - 1) as nat).1);
        } else {
            lemma_nw_aligned_rows(s1, s2, (i - 1) as nat, j);
            assert(a.0.drop_last() =~= nw_aligned(s1, s2, (i - 1) as nat, j).0);
            assert(a.1.drop_last() =~= nw_aligned(s1, s2, (i - 1) as nat, j).1);
        }
        if i > 0 {
            assert(s1.subrange(0, i as int) =~= s1.subrange(0, i - 1).push(s1[i - 1]));
        }
        if j > 0 {
            assert(s2.subrange(0, j as int) =~= s2.subrange(0, j - 1).push(s2[j - 1]));
        }
    }
}

/// A global alignment has two rows of equal length; where neither input
/// holds the gap marker, taking the gaps out of each row gives back the
/// input it came from.
pub proof fn lemma_global_alignment_rows(a: Seq<u8>, b: Seq<u8>)
    ensures
        global_alignment(a, b).0.len() == global_alignment(a, b).1.len(),
        gap_free(a) ==> strip_gaps(global_alignment(a, b).0) == a,
        gap_free(b) ==> strip_gaps(global_alignment(a, b).1) == b,
{
    assert(a.subrange(0, a.len() as int) =~= a);
    assert(b.subrange(0, b.len() as int) =~= b);
    if a.len() >= b.len() {
        lemma_nw_aligned_rows(a, b, a.len(), b.len());
    } else {
        lemma_nw_aligned_rows(b, a, b.len(), a.len());
    }
}

/// On the diagonal of a sequence against itself every cell scores zero and
/// comes from the diagonal.
pub proof fn lemma_nw_self_diagonal(s: Seq<u8>, i: nat)
    requires
        i <= s.len(),
    ensures
        nw_cell(s, s, i, i).0 == 0,
        i > 0 ==> nw_cell(s, s, i, i).1 == Source::MatchMismatch,
        nw_aligned(s, s, i, i) == (s.subrange(0, i as int), s.subrange(0, i as int)),
    decreases i,
{
    if i == 0 {
        assert(s.subrange(0, 0) =~= seq![]);
    } else {
        lemma_nw_self_diagonal(s, (i - 1) as nat);
        assert(s.subrange(0, i as int) =~= s.subrange(0, i - 1).push(s[i - 1]));
    }
}

/// Aligning a sequence globally against itself gives the sequence twice:
/// no gap and no mismatch.
pub proof fn lemma_global_self_alignment(s: Seq<u8>)
    ensures
        global_alignment(s, s) == (s, s),
{
    lemma_nw_self_diagonal(s, s.len());
    assert(s.subrange(0, s.len() as int) =~= s);
}


/// Cost of an alignment column by column: one for each mismatch and one for
/// each run of gaps in either row, however long the run.
pub open spec fn alignment_cost(x: Seq<u8>, y: Seq<u8>) -> nat
    decreases x.len(),
{
    if x.len() == 0 || y.len() == 0 {
        0
    } else {
        let (px, py) = (x.drop_last(), y.drop_last());
        alignment_cost(px, py) + if x.last() == GAP && y.last() != GAP {
            if px.len() > 0 && px.last() == GAP {
                0nat
            } else {
                1nat
            }
        } else if y.last() == GAP && x.last() != GAP {
            if py.len() > 0 && py.last() == GAP {
                0nat
            } else {
                1nat
            }
        } else if x.last() != y.last() {
            1nat
        } else {
            0nat
        }
    }
}

/// Number of gap markers that open `x`.
pub open spec fn leading_gaps(x: Seq<u8>) -> nat
    decreases x.len(),
{
    if x.len() == 0 {
        0
    } else {
        let p = leading_gaps(x.drop_last());
        if p == x.len() - 1 && x.last() == GAP {
            p + 1
        } else {
            p
        }
    }
}

/// What a run of gaps that opens an alignment costs beyond its first
/// column: the border of the grid charges each of its steps.
pub open spec fn opening_excess(x: Seq<u8>, y: Seq<u8>) -> nat {
    (if leading_gaps(x) > 0 {
        (leading_gaps(x) - 1) as nat
    } else {
        0nat
    }) + (if leading_gaps(y) > 0 {
        (leading_gaps(y) - 1) as nat
    } else {
        0nat
    })
}

/// The least cost that the global grid computes for `a` against `b`.
pub open spec fn global_score(a: Seq<u8>, b: Seq<u8>) -> nat {
    if a.len() >= b.len() {
        nw_cell(a, b, a.len(), b.len()).0
    } else {
        nw_cell(b, a, b.len(), a.len()).0
    }
}

proof fn lemma_nw_cost(s1: Seq<u8>, s2: Seq<u8>, i: nat, j: nat)
    requires
        i <= s1.len(),
        j <= s2.len(),
        gap_free(s1),
        gap_free(s2),
    ensures
        ({
            let a = nw_aligned(s1, s2, i, j);
            let t = nw_cell(s1, s2, i, j).1;
            &&& (i > 0 || j > 0) ==> a.0.len() > 0 && (a.0.last() == GAP <==> t == Source::Insertion)
                && (a.1.last() == GAP <==> t == Source::Deletion)
            &&& leading_gaps(a.0) <= a.0.len()
            &&& leading_gaps(a.1) <= a.1.len()
            &&& leading_gaps(a.0) == a.0.len() ==> i == 0
            &&& leading_gaps(a.1) == a.1.len() ==> j == 0
            &&& i == 0 ==> leading_gaps(a.0) == j && a.0.len() == j && leading_gaps(a.1) == 0
            &&& j == 0 ==> leading_gaps(a.1) == i && a.1.len() == i && leading_gaps(a.0) == 0
            &&& alignment_cost(a.1, a.0) == alignment_cost(a.0, a.1)
            &&& nw_cell(s1, s2, i, j).0 == alignment_cost(a.0, a.1) + opening_excess(a.0, a.1)
        }),
    decreases i + j,
{
    lemma_nw_aligned_rows(s1, s2, i, j);
    let a = nw_aligned(s1, s2, i, j);
    if i == 0 && j == 0 {
    } else {
        let t = nw_cell(s1, s2, i, j).1;
        let (pi, pj) = if i > 0 && j > 0 && t == Source::MatchMismatch {
            ((i - 1) as nat, (j - 1) as nat)
        } else if j > 0 && (i == 0 || t == Source::Insertion) {
            (i, (j - 1) as nat)
        } else {
            ((i - 1) as nat, j)
        };
        lemma_nw_cost(s1, s2, pi, pj);
        lemma_nw_aligned_rows(s1, s2, pi, pj);
        let p = nw_aligned(s1, s2, pi, pj);
        assert(a.0.drop_last() =~= p.0);
        assert(a.1.drop_last() =~= p.1);
    }
}

/// The two rows of a global alignment have one length; where neither input
/// holds the gap marker, taking the gaps out of each row gives back its
/// input, and the mismatches plus the gap runs of the alignment make up the
/// score of the grid, less what an opening run of two or more gaps costs
/// beyond its first column at the border. Where the alignment does not open
/// with two gaps in a row, the count is the score itself.
pub proof fn lemma_global_alignment_cost(a: Seq<u8>, b: Seq<u8>)
    requires
        gap_free(a),
        gap_free(b),
    ensures
        global_alignment(a, b).0.len() == global_alignment(a, b).1.len(),
        strip_gaps(global_alignment(a, b).0) == a,
        strip_gaps(global_alignment(a, b).1) == b,
        global_score(a, b) == alignment_cost(global_alignment(a, b).0, global_alignment(a, b).1)
            + opening_excess(global_alignment(a, b).0, global_alignment(a, b).1),
        leading_gaps(global_alignment(a, b).0) <= 1 && leading_gaps(global_alignment(a, b).1) <= 1
            ==> global_score(a, b) == alignment_cost(global_alignment(a, b).0, global_alignment(a, b).1),
{
    lemma_global_alignment_rows(a, b);
    if a.len() >= b.len() {
        lemma_nw_cost(a, b, a.len(), b.len());
    } else {
        lemma_nw_cost(b, a, b.len(), a.len());
    }
}

} // verus!
