//! Local alignment (Smith-Waterman) over a full grid of scores and tags.
//!
//! A match scores three and a mismatch loses three; opening a run of
//! insertions or of deletions loses two and extending it costs nothing.
//! Ties go to the diagonal, then to a deletion, then to an insertion. The
//! alignment ends at the first cell, in row-major order, holding the best
//! score (the anchor) and is read back until a cell scoring zero.
use vstd::prelude::*;
use crate::alignment::{Source, GAP, backwards, reversed, lemma_backwards_push, strip_gaps, gap_free};

verus! {

/// Score and source tag of cell `(i, j)` of the grid for `s1` (rows)
/// against `s2` (columns).
pub open spec fn sw_cell(s1: Seq<u8>, s2: Seq<u8>, i: nat, j: nat) -> (int, Source)
    decreases i + j,
{
    if j == 0 {
        (0, Source::Deletion)
    } else if i == 0 {
        (0, Source::Insertion)
    } else {
        let diag = sw_cell(s1, s2, (i - 1) as nat, (j - 1) as nat).0 + if s1[i - 1] == s2[j - 1] {
            3int
        } else {
            -3int
        };
        let up = sw_cell(s1, s2, (i - 1) as nat, j);
        let del = up.0 - if up.1 != Source::Deletion {
            2int
        } else {
            0int
        };
        let left = sw_cell(s1, s2, i, (j - 1) as nat);
        let ins = left.0 - if left.1 != Source::Insertion {
            2int
        } else {
            0int
        };
        if diag >= ins && diag >= del {
            (diag, Source::MatchMismatch)
        } else if del >= ins {
            (del, Source::Deletion)
        } else {
            (ins, Source::Insertion)
        }
    }
}

/// Best score and its cell after scanning cells `(i, 1)` to `(i, j)`,
/// starting from `st`. Only a strictly greater score moves the anchor.
pub open spec fn sw_scan_row(s1: Seq<u8>, s2: Seq<u8>, i: nat, j: nat, st: (int, nat, nat)) -> (int, nat, nat)
    decreases j,
{
    if j == 0 {
        st
    } else {
        let p = sw_scan_row(s1, s2, i, (j - 1) as nat, st);
        let v = sw_cell(s1, s2, i, j).0;
        if v > p.0 {
            (v, i, j)
        } else {
            p
        }
    }
}

/// Best score and its cell after scanning rows `1` to `i` left to right,
/// starting from a score of zero at the origin.
pub open spec fn sw_scan(s1: Seq<u8>, s2: Seq<u8>, i: nat) -> (int, nat, nat)
    decreases i,
{
    if i == 0 {
        (0, 0, 0)
    } else {
        sw_scan_row(s1, s2, i, s2.len(), sw_scan(s1, s2, (i - 1) as nat))
    }
}

/// The alignment read back from `(i, j)` until a cell on the border or
/// scoring zero, with the cell where it stopped.
pub open spec fn sw_aligned(s1: Seq<u8>, s2: Seq<u8>, i: nat, j: nat) -> (Seq<u8>, Seq<u8>, nat, nat)
    decreases i + j,
{
    if i == 0 || j == 0 || sw_cell(s1, s2, i, j).0 == 0 {
        (seq![], seq![], i, j)
    } else {
        let t = sw_cell(s1, s2, i, j).1;
        if t == Source::MatchMismatch {
            let p = sw_aligned(s1, s2, (i - 1) as nat, (j - 1) as nat);
            (p.0.push(s1[i - 1]), p.1.push(s2[j - 1]), p.2, p.3)
        } else if t == Source::Insertion {
            let p = sw_aligned(s1, s2, i, (j - 1) as nat);
            (p.0.push(GAP), p.1.push(s2[j - 1]), p.2, p.3)
        } else {
            let p = sw_aligned(s1, s2, (i - 1) as nat, j);
            (p.0.push(s1[i - 1]), p.1.push(GAP), p.2, p.3)
        }
    }
}

/// A local alignment: the two aligned rows, and for each input the range
/// `start..end` of it that the alignment covers.
#[derive(Debug, PartialEq, Eq)]
pub struct LocalAlignment {
    pub aligned1: Vec<u8>,
    pub aligned2: Vec<u8>,
    pub start1: usize,
    pub end1: usize,
    pub start2: usize,
    pub end2: usize,
}

/// The alignment of `s1` (rows) against `s2` (columns) ending at the anchor,
/// as `(row of s1, row of s2, start in s1, start in s2, end in s1, end in s2)`.
pub open spec fn sw_result(s1: Seq<u8>, s2: Seq<u8>) -> (Seq<u8>, Seq<u8>, nat, nat, nat, nat) {
    let anchor = sw_scan(s1, s2, s1.len());
    let p = sw_aligned(s1, s2, anchor.1, anchor.2);
    (p.0, p.1, p.2, p.3, anchor.1, anchor.2)
}

/// Whether `r` holds the local alignment of `a` and `b`, in argument order.
/// The longer sequence gives the rows of the grid; `a` does on equal lengths.
pub open spec fn is_local_alignment(r: LocalAlignment, a: Seq<u8>, b: Seq<u8>) -> bool {
    let q = if a.len() >= b.len() {
        sw_result(a, b)
    } else {
        let p = sw_result(b, a);
        (p.1, p.0, p.3, p.2, p.5, p.4)
    };
    r.aligned1@ == q.0 && r.aligned2@ == q.1 && r.start1 == q.2 && r.start2 == q.3 && r.end1
        == q.4 && r.end2 == q.5
}

#[derive(Debug, Clone, Copy)]
struct Entry {
    value: i64,
    source: Source,
}

impl Entry {
    fn new(value: i64, source: Source) -> (r: Entry)
        ensures
            r.value == value,
            r.source == source,
    {
        Entry { value, source }
    }
}

struct Aligner {
    alignment1: Vec<u8>,
    alignment2: Vec<u8>,
    row: usize,
    col: usize,
}

impl Aligner {
    fn new(row: usize, col: usize) -> (r: Aligner)
        ensures
            r.alignment1@ == Seq::<u8>::empty(),
            r.alignment2@ == Seq::<u8>::empty(),
            r.row == row,
            r.col == col,
    {
        Aligner { alignment1: Vec::new(), alignment2: Vec::new(), row, col }
    }

    fn shift_matchmismatch(&mut self)
        requires
            old(self).row > 0,
            old(self).col > 0,
        ensures
            final(self).row == old(self).row - 1,
            final(self).col == old(self).col - 1,
            final(self).alignment1 == old(self).alignment1,
            final(self).alignment2 == old(self).alignment2,
    {
        self.row = self.row - 1;
        self.col = self.col - 1;
    }

    fn shift_insertion(&mut self)
        requires
            old(self).col > 0,
        ensures
            final(self).row == old(self).row,
            final(self).col == old(self).col - 1,
            final(self).alignment1 == old(self).alignment1,
            final(self).alignment2 == old(self).alignment2,
    {
        self.col = self.col - 1;
    }

    fn shift_deletion(&mut self)
        requires
            old(self).row > 0,
        ensures
            final(self).row == old(self).row - 1,
            final(self).col == old(self).col,
            final(self).alignment1 == old(self).alignment1,
            final(self).alignment2 == old(self).alignment2,
    {
        self.row = self.row - 1;
    }
}

/// Scores stay between minus two and plus three times the column.
pub proof fn lemma_sw_score_bounded(s1: Seq<u8>, s2: Seq<u8>, i: nat, j: nat)
    ensures
        -2 * j <= sw_cell(s1, s2, i, j).0 <= 3 * j,
        sw_cell(s1, s2, i, j).0 <= 3 * i,
    decreases i + j,
{
    if i > 0 && j > 0 {
        lemma_sw_score_bounded(s1, s2, (i - 1) as nat, (j - 1) as nat);
        lemma_sw_score_bounded(s1, s2, (i - 1) as nat, j);
        lemma_sw_score_bounded(s1, s2, i, (j - 1) as nat);
    }
}

spec fn holds_cell(e: Entry, s1: Seq<u8>, s2: Seq<u8>, i: nat, j: nat) -> bool {
    e.value == sw_cell(s1, s2, i, j).0 && e.source == sw_cell(s1, s2, i, j).1
}

spec fn grid_holds(grid: Seq<Vec<Entry>>, s1: Seq<u8>, s2: Seq<u8>, rows: nat) -> bool {
    &&& grid.len() == rows
    &&& forall|r: int| 0 <= r < rows ==> grid[r]@.len() == s2.len() + 1
    &&& forall|r: int, c: int|
        0 <= r < rows && 0 <= c <= s2.len() ==> holds_cell(#[trigger] grid[r]@[c], s1, s2, r as nat, c as nat)
}

/// Fills the whole grid of `seq1` (rows) against `seq2` (columns) and finds
/// the anchor.
fn fill_grid(seq1: &[u8], seq2: &[u8]) -> (r: (Vec<Vec<Entry>>, usize, usize))
    requires
        seq1@.len() < usize::MAX,
        seq2@.len() < 0xffff_ffff,
    ensures
        grid_holds(r.0@, seq1@, seq2@, seq1@.len() + 1),
        (r.1 as nat, r.2 as nat) == (sw_scan(seq1@, seq2@, seq1@.len()).1, sw_scan(seq1@, seq2@, seq1@.len()).2),
{
    let ghost s1 = seq1@;
    let ghost s2 = seq2@;
    let rows = seq1.len() + 1;
    let cols = seq2.len() + 1;
    let mut first: Vec<Entry> = Vec::new();
    first.push(Entry::new(0, Source::Deletion));
    let mut c: usize = 1;
    while c < cols
        invariant
            cols == s2.len() + 1,
            1 <= c <= cols,
            first@.len() == c,
            forall|k: int| 0 <= k < c ==> holds_cell(#[trigger] first@[k], s1, s2, 0, k as nat),
        decreases cols - c,
    {
        first.push(Entry::new(0, Source::Insertion));
        c = c + 1;
    }
    let mut grid: Vec<Vec<Entry>> = Vec::new();
    grid.push(first);
    let mut maxvalue: i64 = 0;
    let mut maxrow: usize = 0;
    let mut maxcol: usize = 0;
    let mut row: usize = 1;
    while row < rows
        invariant
            s1 == seq1@,
            s2 == seq2@,
            rows == s1.len() + 1,
            cols == s2.len() + 1,
            s2.len() < 0xffff_ffff,
            1 <= row <= rows,
            grid_holds(grid@, s1, s2, row as nat),
            (maxvalue as int, maxrow as nat, maxcol as nat) == sw_scan(s1, s2, (row - 1) as nat),
        decreases rows - row,
    {
        let ghost start = sw_scan(s1, s2, (row - 1) as nat);
        let mut curr: Vec<Entry> = Vec::new();
        curr.push(Entry::new(0, Source::Deletion));
        let mut col: usize = 1;
        while col < cols
            invariant
                s1 == seq1@,
                s2 == seq2@,
                rows == s1.len() + 1,
                cols == s2.len() + 1,
                s2.len() < 0xffff_ffff,
                1 <= row < rows,
                1 <= col <= cols,
                grid_holds(grid@, s1, s2, row as nat),
                curr@.len() == col,
                forall|k: int| 0 <= k < col ==> holds_cell(#[trigger] curr@[k], s1, s2, row as nat, k as nat),
                start == sw_scan(s1, s2, (row - 1) as nat),
                (maxvalue as int, maxrow as nat, maxcol as nat) == sw_scan_row(s1, s2, row as nat, (col - 1) as nat, start),
            decreases cols - col,
        {
            proof {
                lemma_sw_score_bounded(s1, s2, (row - 1) as nat, (col - 1) as nat);
                lemma_sw_score_bounded(s1, s2, (row - 1) as nat, col as nat);
                lemma_sw_score_bounded(s1, s2, row as nat, (col - 1) as nat);
                lemma_sw_score_bounded(s1, s2, row as nat, col as nat);
                assert(holds_cell(grid@[row - 1]@[col - 1], s1, s2, (row - 1) as nat, (col - 1) as nat));
                assert(holds_cell(grid@[row - 1]@[col as int], s1, s2, (row - 1) as nat, col as nat));
                assert(holds_cell(curr@[col - 1], s1, s2, row as nat, (col - 1) as nat));
            }
            let diag = grid[row - 1][col - 1];
            let up = grid[row - 1][col];
            let left = curr[col - 1];
            let matchmismatch = Entry::new(
                diag.value + if seq1[row - 1] == seq2[col - 1] {
                    3i64
                } else {
                    -3i64
                },
                Source::MatchMismatch,
            );
            let insertion = Entry::new(
                left.value - if left.source != Source::Insertion {
                    2i64
                } else {
                    0i64
                },
                Source::Insertion,
            );
            let deletion = Entry::new(
                up.value - if up.source != Source::Deletion {
                    2i64
                } else {
                    0i64
                },
                Source::Deletion,
            );
            let chosen = if matchmismatch.value >= insertion.value && matchmismatch.value >= deletion.value {
                matchmismatch
            } else if deletion.value >= insertion.value {
                deletion
            } else {
                insertion
            };
            if chosen.value > maxvalue {
                maxvalue = chosen.value;
                maxrow = row;
                maxcol = col;
            }
            curr.push(chosen);
            proof {
                assert(holds_cell(curr@[col as int], s1, s2, row as nat, col as nat));
            }
            col = col + 1;
        }
        grid.push(curr);
        row = row + 1;
    }
    (grid, maxrow, maxcol)
}

/// Reads the alignment back from `(row, col)` in a filled grid.
fn trace_back(seq1: &[u8], seq2: &[u8], grid: &Vec<Vec<Entry>>, row: usize, col: usize) -> (r: (Vec<u8>, Vec<u8>, usize, usize))
    requires
        grid_holds(grid@, seq1@, seq2@, seq1@.len() + 1),
        row <= seq1@.len(),
        col <= seq2@.len(),
    ensures
        (r.0@, r.1@, r.2 as nat, r.3 as nat) == sw_aligned(seq1@, seq2@, row as nat, col as nat),
{
    let ghost s1 = seq1@;
    let ghost s2 = seq2@;
    let ghost full = sw_aligned(s1, s2, row as nat, col as nat);
    let mut aligner = Aligner::new(row, col);
    proof {
        assert(holds_cell(grid@[row as int]@[col as int], s1, s2, row as nat, col as nat));
    }
    while aligner.row > 0 && aligner.col > 0 && grid[aligner.row][aligner.col].value != 0
        invariant
            s1 == seq1@,
            s2 == seq2@,
            full == sw_aligned(s1, s2, row as nat, col as nat),
            grid_holds(grid@, s1, s2, s1.len() + 1),
            aligner.row <= s1.len(),
            aligner.col <= s2.len(),
            full.0 == sw_aligned(s1, s2, aligner.row as nat, aligner.col as nat).0 + backwards(aligner.alignment1@),
            full.1 == sw_aligned(s1, s2, aligner.row as nat, aligner.col as nat).1 + backwards(aligner.alignment2@),
            full.2 == sw_aligned(s1, s2, aligner.row as nat, aligner.col as nat).2,
            full.3 == sw_aligned(s1, s2, aligner.row as nat, aligner.col as nat).3,
        ensures
            full.0 == backwards(aligner.alignment1@),
            full.1 == backwards(aligner.alignment2@),
            full.2 == aligner.row,
            full.3 == aligner.col,
        decreases aligner.row + aligner.col,
    {
        let ghost (i, j) = (aligner.row as nat, aligner.col as nat);
        let ghost a1 = aligner.alignment1@;
        let ghost a2 = aligner.alignment2@;
        let ghost here = sw_aligned(s1, s2, i, j);
        proof {
            assert(holds_cell(grid@[i as int]@[j as int], s1, s2, i, j));
        }
        let tag = grid[aligner.row][aligner.col].source;
        match tag {
            Source::MatchMismatch => {
                let x = seq1[aligner.row - 1];
                let y = seq2[aligner.col - 1];
                aligner.alignment1.push(x);
                aligner.alignment2.push(y);
                aligner.shift_matchmismatch();
                proof {
                    let p = sw_aligned(s1, s2, (i - 1) as nat, (j - 1) as nat);
                    lemma_backwards_push(a1, x);
                    lemma_backwards_push(a2, y);
                    assert(here.0 + backwards(a1) =~= p.0 + (seq![x] + backwards(a1)));
                    assert(here.1 + backwards(a2) =~= p.1 + (seq![y] + backwards(a2)));
                }
            },
            Source::Insertion => {
                let y = seq2[aligner.col - 1];
                aligner.alignment1.push(GAP);
                aligner.alignment2.push(y);
                aligner.shift_insertion();
                proof {
                    let p = sw_aligned(s1, s2, i, (j - 1) as nat);
                    lemma_backwards_push(a1, GAP);
                    lemma_backwards_push(a2, y);
                    assert(here.0 + backwards(a1) =~= p.0 + (seq![GAP] + backwards(a1)));
                    assert(here.1 + backwards(a2) =~= p.1 + (seq![y] + backwards(a2)));
                }
            },
            Source::Deletion => {
                let x = seq1[aligner.row - 1];
                aligner.alignment1.push(x);
                aligner.alignment2.push(GAP);
                aligner.shift_deletion();
                proof {
                    let p = sw_aligned(s1, s2, (i - 1) as nat, j);
                    lemma_backwards_push(a1, x);
                    lemma_backwards_push(a2, GAP);
                    assert(here.0 + backwards(a1) =~= p.0 + (seq![x] + backwards(a1)));
                    assert(here.1 + backwards(a2) =~= p.1 + (seq![GAP] + backwards(a2)));
                }
            },
            Source::Start => {
                proof {
                    assert(false);
                }
                break;
            },
        }
    }
    (reversed(&aligner.alignment1), reversed(&aligner.alignment2), aligner.row, aligner.col)
}

fn align_rows(seq1: &[u8], seq2: &[u8]) -> (r: (Vec<u8>, Vec<u8>, usize, usize, usize, usize))
    requires
        seq1@.len() < usize::MAX,
        seq2@.len() < 0xffff_ffff,
    ensures
        (r.0@, r.1@, r.2 as nat, r.3 as nat, r.4 as nat, r.5 as nat) == sw_result(seq1@, seq2@),
{
    let (grid, maxrow, maxcol) = fill_grid(seq1, seq2);
    proof {
        lemma_sw_scan_in_range(seq1@, seq2@, seq1@.len());
    }
    let (a1, a2, start1, start2) = trace_back(seq1, seq2, &grid, maxrow, maxcol);
    (a1, a2, start1, start2, maxrow, maxcol)
}

/// Locally aligns `seq1` and `seq2`: the best-scoring pair of stretches,
/// with `-` where one of them advances alone, and where each stretch lies
/// in its input. Everything is in argument order.
pub fn smith_waterman(seq1: &[u8], seq2: &[u8]) -> (r: LocalAlignment)
    requires
        (seq1@.len() + 1) * (seq2@.len() + 1) <= usize::MAX,
    ensures
        is_local_alignment(r, seq1@, seq2@),
{
    let n = seq1.len();
    let m = seq2.len();
    if n < m {
        proof {
            lemma_shorter_side_fits(m as int, n as int);
        }
        let (a2, a1, s2, s1, e2, e1) = align_rows(seq2, seq1);
        LocalAlignment { aligned1: a1, aligned2: a2, start1: s1, end1: e1, start2: s2, end2: e2 }
    } else {
        proof {
            lemma_shorter_side_fits(n as int, m as int);
        }
        let (a1, a2, s1, s2, e1, e2) = align_rows(seq1, seq2);
        LocalAlignment { aligned1: a1, aligned2: a2, start1: s1, end1: e1, start2: s2, end2: e2 }
    }
}

proof fn lemma_shorter_side_fits(long: int, short: int)
    requires
        0 <= short <= long,
        (long + 1) * (short + 1) <= usize::MAX,
    ensures
        short < 0xffff_ffff,
        long < usize::MAX,
{
    assert(long + 1 <= (long + 1) * (short + 1)) by (nonlinear_arith)
        requires
            0 <= short <= long,
    ;
    assert((short + 1) * (short + 1) <= (long + 1) * (short + 1)) by (nonlinear_arith)
        requires
            0 <= short <= long,
    ;
    if short >= 0xffff_ffff {
        assert((short + 1) * (short + 1) >= 0x1_0000_0000 * 0x1_0000_0000) by (nonlinear_arith)
            requires
                short >= 0xffff_ffff,
        ;
    }
}

/// The anchor found by a scan lies inside the grid.
proof fn lemma_sw_scan_in_range(s1: Seq<u8>, s2: Seq<u8>, i: nat)
    requires
        i <= s1.len(),
    ensures
        sw_scan(s1, s2, i).1 <= i,
        sw_scan(s1, s2, i).2 <= s2.len(),
    decreases i,
{
    if i > 0 {
        lemma_sw_scan_in_range(s1, s2, (i - 1) as nat);
        lemma_sw_scan_row_in_range(s1, s2, i, s2.len(), sw_scan(s1, s2, (i - 1) as nat));
    }
}

proof fn lemma_sw_scan_row_in_range(s1: Seq<u8>, s2: Seq<u8>, i: nat, j: nat, st: (int, nat, nat))
    requires
        st.1 <= i,
        st.2 <= s2.len(),
        j <= s2.len(),
    ensures
        sw_scan_row(s1, s2, i, j, st).1 <= i,
        sw_scan_row(s1, s2, i, j, st).2 <= s2.len(),
    decreases j,
{
    if j > 0 {
        lemma_sw_scan_row_in_range(s1, s2, i, (j - 1) as nat, st);
    }
}


/// The alignment read back from `(i, j)` starts at a cell above and to the
/// left of it, and taking the gaps out of its rows gives the stretches of
/// the inputs between the two cells.
pub proof fn lemma_sw_aligned_rows(s1: Seq<u8>, s2: Seq<u8>, i: nat, j: nat)
    requires
        i <= s1.len(),
        j <= s2.len(),
    ensures
        sw_aligned(s1, s2, i, j).0.len() == sw_aligned(s1, s2, i, j).1.len(),
        sw_aligned(s1, s2, i, j).2 <= i,
        sw_aligned(s1, s2, i, j).3 <= j,
        gap_free(s1) ==> strip_gaps(sw_aligned(s1, s2, i, j).0) == s1.subrange(
            sw_aligned(s1, s2, i, j).2 as int,
            i as int,
        ),
        gap_free(s2) ==> strip_gaps(sw_aligned(s1, s2, i, j).1) == s2.subrange(
            sw_aligned(s1, s2, i, j).3 as int,
            j as int,
        ),
    decreases i + j,
{
    let a = sw_aligned(s1, s2, i, j);
    if i == 0 || j == 0 || sw_cell(s1, s2, i, j).0 == 0 {
        assert(s1.subrange(i as int, i as int) =~= seq![]);
        assert(s2.subrange(j as int, j as int) =~= seq![]);
    } else {
        let t = sw_cell(s1, s2, i, j).1;
        let (pi, pj) = if t == Source::MatchMismatch {
            ((i - 1) as nat, (j - 1) as nat)
        } else if t == Source::Insertion {
            (i, (j - 1) as nat)
        } else {
            ((i - 1) as nat, j)
        };
        lemma_sw_aligned_rows(s1, s2, pi, pj);
        let p = sw_aligned(s1, s2, pi, pj);
        assert(a.0.drop_last() =~= p.0);
        assert(a.1.drop_last() =~= p.1);
        if pi < i {
            assert(s1.subrange(p.2 as int, i as int) =~= s1.subrange(p.2 as int, i - 1).push(s1[i - 1]));
        }
        if pj < j {
            assert(s2.subrange(p.3 as int, j as int) =~= s2.subrange(p.3 as int, j - 1).push(s2[j - 1]));
        }
    }
}

/// A local alignment has two rows of equal length; where neither input
/// holds the gap marker, taking the gaps out of each row gives a contiguous
/// stretch `start..end` of the input it came from.
pub proof fn lemma_local_alignment_rows(r: LocalAlignment, a: Seq<u8>, b: Seq<u8>)
    requires
        is_local_alignment(r, a, b),
    ensures
        r.aligned1@.len() == r.aligned2@.len(),
        r.start1 <= r.end1 <= a.len(),
        r.start2 <= r.end2 <= b.len(),
        gap_free(a) ==> strip_gaps(r.aligned1@) == a.subrange(r.start1 as int, r.end1 as int),
        gap_free(b) ==> strip_gaps(r.aligned2@) == b.subrange(r.start2 as int, r.end2 as int),
{
    if a.len() >= b.len() {
        lemma_sw_scan_in_range(a, b, a.len());
        let anchor = sw_scan(a, b, a.len());
        lemma_sw_aligned_rows(a, b, anchor.1, anchor.2);
    } else {
        lemma_sw_scan_in_range(b, a, b.len());
        let anchor = sw_scan(b, a, b.len());
        lemma_sw_aligned_rows(b, a, anchor.1, anchor.2);
    }
}

proof fn lemma_sw_scan_row_max(s1: Seq<u8>, s2: Seq<u8>, i: nat, j: nat, st: (int, nat, nat))
    requires
        st.0 == sw_cell(s1, s2, st.1, st.2).0,
    ensures
        sw_scan_row(s1, s2, i, j, st).0 == sw_cell(
            s1,
            s2,
            sw_scan_row(s1, s2, i, j, st).1,
            sw_scan_row(s1, s2, i, j, st).2,
        ).0,
        sw_scan_row(s1, s2, i, j, st).0 >= st.0,
        sw_scan_row(s1, s2, i, j, st) == st || (sw_scan_row(s1, s2, i, j, st).1 == i && 1
            <= sw_scan_row(s1, s2, i, j, st).2 <= j),
        forall|k: nat| 1 <= k <= j ==> sw_cell(s1, s2, i, k).0 <= sw_scan_row(s1, s2, i, j, st).0,
    decreases j,
{
    if j > 0 {
        lemma_sw_scan_row_max(s1, s2, i, (j - 1) as nat, st);
    }
}

/// The anchor holds the greatest score of the grid, and the score kept with
/// it is its own.
pub proof fn lemma_sw_anchor_is_max(s1: Seq<u8>, s2: Seq<u8>, i: nat)
    requires
        i <= s1.len(),
    ensures
        sw_scan(s1, s2, i).0 == sw_cell(s1, s2, sw_scan(s1, s2, i).1, sw_scan(s1, s2, i).2).0,
        sw_scan(s1, s2, i).0 >= 0,
        forall|r: nat, c: nat| r <= i && c <= s2.len() ==> sw_cell(s1, s2, r, c).0 <= sw_scan(s1, s2, i).0,
    decreases i,
{
    if i > 0 {
        lemma_sw_anchor_is_max(s1, s2, (i - 1) as nat);
        lemma_sw_scan_row_max(s1, s2, i, s2.len(), sw_scan(s1, s2, (i - 1) as nat));
        assert forall|r: nat, c: nat| r <= i && c <= s2.len() implies sw_cell(s1, s2, r, c).0 <= sw_scan(
            s1,
            s2,
            i,
        ).0 by {
            if r == i && c == 0 {
            }
        }
    }
}

/// On the diagonal of a sequence against itself, cell `(i, i)` scores three
/// times `i` and comes from the diagonal.
proof fn lemma_sw_self_diagonal(s: Seq<u8>, i: nat)
    requires
        i <= s.len(),
    ensures
        i > 0 ==> sw_cell(s, s, i, i) == ((3 * i) as int, Source::MatchMismatch),
        sw_aligned(s, s, i, i) == (s.subrange(0, i as int), s.subrange(0, i as int), 0nat, 0nat),
    decreases i,
{
    if i == 0 {
        assert(s.subrange(0, 0) =~= seq![]);
    } else {
        lemma_sw_self_diagonal(s, (i - 1) as nat);
        lemma_sw_score_bounded(s, s, (i - 1) as nat, i);
        lemma_sw_score_bounded(s, s, i, (i - 1) as nat);
        assert(s.subrange(0, i as int) =~= s.subrange(0, i - 1).push(s[i - 1]));
    }
}

/// Aligning a non-empty sequence locally against itself covers all of it,
/// with no gap and no mismatch.
pub proof fn lemma_local_self_alignment(r: LocalAlignment, s: Seq<u8>)
    requires
        s.len() > 0,
        is_local_alignment(r, s, s),
    ensures
        r.aligned1@ == s,
        r.aligned2@ == s,
        r.start1 == 0 && r.end1 == s.len(),
        r.start2 == 0 && r.end2 == s.len(),
{
    let n = s.len();
    let before = sw_scan(s, s, (n - 1) as nat);
    lemma_sw_anchor_is_max(s, s, (n - 1) as nat);
    lemma_sw_scan_in_range(s, s, (n - 1) as nat);
    lemma_sw_score_bounded(s, s, before.1, before.2);
    lemma_sw_scan_row_max(s, s, n, (n - 1) as nat, before);
    let last = sw_scan_row(s, s, n, (n - 1) as nat, before);
    lemma_sw_score_bounded(s, s, last.1, last.2);
    lemma_sw_self_diagonal(s, n);
    assert(sw_scan(s, s, n) == ((3 * n) as int, n, n));
    assert(s.subrange(0, n as int) =~= s);
}

} // verus!
