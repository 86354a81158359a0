//! A small FM-index: the Burrows-Wheeler transform of a text closed by a
//! terminator byte, with the tables that map a row of the sorted rotations
//! to the row of the rotation one position earlier.
use vstd::prelude::*;
use vstd::multiset::Multiset;
use hashbag::HashBag;
use crate::alignment::{backwards, reversed};

verus! {

/// The byte that closes the text before its rotations are sorted.
pub const TERMINATOR: u8 = 36;

#[verifier::external_type_specification]
#[verifier::external_body]
#[verifier::reject_recursive_types(T)]
#[verifier::reject_recursive_types(S)]
pub struct ExHashBag<T, S>(HashBag<T, S>);

/// What a bag of bytes holds, each byte with its number of occurrences.
pub uninterp spec fn bag_contents(b: HashBag<u8>) -> Multiset<u8>;

/// Relies on hashbag::HashBag::new: a new bag holds nothing.
#[verifier::external_body]
fn bag_new() -> (r: HashBag<u8>)
    ensures
        bag_contents(r) == Multiset::<u8>::empty(),
{
    HashBag::new()
}

/// Relies on hashbag::HashBag::insert: it adds one occurrence of `value`
/// and returns how many there were before. Its counters do not overflow
/// while the bag holds fewer than `usize::MAX` items.
#[verifier::external_body]
fn bag_insert(bag: &mut HashBag<u8>, value: u8) -> (r: usize)
    requires
        bag_contents(*old(bag)).len() < usize::MAX,
    ensures
        bag_contents(*final(bag)) == bag_contents(*old(bag)).insert(value),
        r == bag_contents(*old(bag)).count(value),
{
    bag.insert(value)
}

/// Relies on hashbag::HashBag::contains: the number of occurrences of
/// `value` in the bag.
#[verifier::external_body]
fn bag_contains(bag: &HashBag<u8>, value: u8) -> (r: usize)
    ensures
        r == bag_contents(*bag).count(value),
{
    bag.contains(&value)
}

/// Index `k` taken round a cycle of length `n`, for `0 <= k < 2 * n`.
pub open spec fn wrap(n: int, k: int) -> int {
    if k < n {
        k
    } else {
        k - n
    }
}

/// The rotation of `s` that starts at position `p`.
pub open spec fn rotation(s: Seq<u8>, p: int) -> Seq<u8> {
    Seq::new(s.len(), |x: int| s[wrap(s.len() as int, p + x)])
}

/// Lexicographic order on byte sequences: `a` is smaller than `b` at the
/// first position where they differ.
pub open spec fn lex_lt(a: Seq<u8>, b: Seq<u8>) -> bool {
    exists|k: int|
        0 <= k < a.len() && k < b.len() && (forall|x: int| 0 <= x < k ==> a[x] == b[x]) && a[k] < b[k]
}

/// `rows` lists every rotation start of `s` once, in ascending order of the
/// rotations.
pub open spec fn sorted_rotations(s: Seq<u8>, rows: Seq<usize>) -> bool {
    &&& rows.len() == s.len()
    &&& forall|r: int| 0 <= r < rows.len() ==> rows[r] < s.len()
    &&& forall|p: int| 0 <= p < s.len() ==> #[trigger] rows.contains(p as usize)
    &&& forall|a: int, b: int|
        0 <= a < b < rows.len() ==> !lex_lt(rotation(s, rows[b] as int), rotation(s, rows[a] as int))
}

/// Number of occurrences of `c` in `s`.
pub open spec fn count_eq(s: Seq<u8>, c: u8) -> nat
    decreases s.len(),
{
    if s.len() == 0 {
        0
    } else {
        count_eq(s.drop_last(), c) + if s.last() == c {
            1nat
        } else {
            0nat
        }
    }
}

/// Number of bytes of `s` smaller than `c`.
pub open spec fn count_less(s: Seq<u8>, c: u8) -> nat
    decreases s.len(),
{
    if s.len() == 0 {
        0
    } else {
        count_less(s.drop_last(), c) + if s.last() < c {
            1nat
        } else {
            0nat
        }
    }
}

pub struct FMIndex {
    /// Last column of the sorted rotations.
    pub bwt_l: Vec<u8>,
    /// For each byte value, the rows whose rotation starts with it.
    char_counts: Vec<(usize, usize)>,
    /// For each row, how often its last byte occurs in that row and above.
    occ: Vec<usize>,
    /// For each row, the position in the text where its rotation starts.
    pub directory: Vec<usize>,
    text: Ghost<Seq<u8>>,
}

impl FMIndex {
    /// The terminated text the index was built from.
    pub closed spec fn text(&self) -> Seq<u8> {
        self.text@
    }

    pub closed spec fn len(&self) -> nat {
        self.bwt_l@.len()
    }

    pub closed spec fn start_of(&self, c: u8) -> nat {
        self.char_counts@[c as int].0 as nat
    }

    pub closed spec fn end_of(&self, c: u8) -> nat {
        self.char_counts@[c as int].1 as nat
    }

    /// The row of the rotation one position before that of row `i`.
    pub closed spec fn lf(&self, i: int) -> int {
        self.char_counts@[self.bwt_l@[i] as int].0 + self.occ@[i] - 1
    }

    pub closed spec fn wf(&self) -> bool {
        let s = self.text@;
        let l = self.bwt_l@;
        let n = l.len();
        &&& s.len() == n
        &&& 1 <= n < usize::MAX / 2
        &&& s.last() == TERMINATOR
        &&& sorted_rotations(s, self.directory@)
        &&& forall|r: int|
            0 <= r < n ==> l[r] == s[if self.directory@[r] == 0 {
                n - 1
            } else {
                self.directory@[r] - 1
            }]
        &&& self.char_counts@.len() == 256
        &&& forall|c: u8|
            self.char_counts@[c as int] == (count_less(l, c) as usize, (count_less(l, c) + count_eq(l, c)) as usize)
        &&& self.occ@.len() == n
        &&& forall|r: int| 0 <= r < n ==> self.occ@[r] == count_eq(l.subrange(0, r + 1), l[r])
        &&& forall|r: int| 0 <= r < n ==> 0 <= #[trigger] self.lf(r) < n
        &&& exists|r: int| 0 <= r < n && l[r] == TERMINATOR
    }

    /// The index of `input`: the sorted rotations of `input` followed by the
    /// terminator, their last column, and the tables over it.
    pub fn new(input: &[u8]) -> (r: FMIndex)
        requires
            input@.len() + 1 < usize::MAX / 2,
        ensures
            r.wf(),
            r.text() == input@.push(TERMINATOR),
    {
        let mut s: Vec<u8> = Vec::new();
        let mut k: usize = 0;
        while k < input.len()
            invariant
                k <= input@.len(),
                s@ == input@.subrange(0, k as int),
            decreases input@.len() - k,
        {
            s.push(input[k]);
            k = k + 1;
        }
        s.push(TERMINATOR);
        proof {
            assert(input@.subrange(0, input@.len() as int) =~= input@);
        }
        let (bwt_l, directory) = FMIndex::bwt(&s);
        let n = bwt_l.len();
        let mut char_counts: Vec<(usize, usize)> = Vec::new();
        let mut c: usize = 0;
        while c < 256
            invariant
                c <= 256,
                n == bwt_l@.len(),
                char_counts@.len() == c,
                forall|d: u8|
                    (d as int) < c ==> char_counts@[d as int] == (
                        count_less(bwt_l@, d) as usize,
                        (count_less(bwt_l@, d) + count_eq(bwt_l@, d)) as usize,
                    ),
            decreases 256 - c,
        {
            let ghost cb = c as u8;
            let mut less: usize = 0;
            let mut same: usize = 0;
            let mut r: usize = 0;
            while r < n
                invariant
                    c < 256,
                    cb == c as u8,
                    n == bwt_l@.len(),
                    r <= n,
                    less == count_less(bwt_l@.subrange(0, r as int), cb),
                    same == count_eq(bwt_l@.subrange(0, r as int), cb),
                    less + same <= r,
                decreases n - r,
            {
                proof {
                    assert(bwt_l@.subrange(0, r + 1).drop_last() =~= bwt_l@.subrange(0, r as int));
                }
                if (bwt_l[r] as usize) < c {
                    less = less + 1;
                } else if bwt_l[r] as usize == c {
                    same = same + 1;
                }
                r = r + 1;
            }
            proof {
                assert(bwt_l@.subrange(0, n as int) =~= bwt_l@);
            }
            char_counts.push((less, less + same));
            c = c + 1;
        }
        let mut occ: Vec<usize> = Vec::new();
        let mut bag = bag_new();
        proof {
            broadcast use vstd::multiset::group_multiset_axioms;

            assert(bwt_l@.subrange(0, 0) =~= Seq::<u8>::empty());
            Seq::<u8>::empty().to_multiset_ensures();
            vstd::multiset::lemma_multiset_empty_len(Seq::<u8>::empty().to_multiset());
        }
        let mut r: usize = 0;
        while r < n
            invariant
                n == bwt_l@.len(),
                n < usize::MAX / 2,
                r <= n,
                bag_contents(bag) == bwt_l@.subrange(0, r as int).to_multiset(),
                occ@.len() == r,
                forall|q: int| 0 <= q < r ==> occ@[q] == count_eq(bwt_l@.subrange(0, q + 1), bwt_l@[q]),
            decreases n - r,
        {
            let ghost before = bwt_l@.subrange(0, r as int);
            proof {
                assert(bwt_l@.subrange(0, r + 1) =~= before.push(bwt_l@[r as int]));
                before.to_multiset_ensures();
                lemma_count_matches_multiset(bwt_l@.subrange(0, r + 1), bwt_l@[r as int]);
            }
            bag_insert(&mut bag, bwt_l[r]);
            occ.push(bag_contains(&bag, bwt_l[r]));
            r = r + 1;
        }
        let ghost l = bwt_l@;
        proof {
            assert forall|q: int| 0 <= q < n implies 0 <= #[trigger] (char_counts@[l[q] as int].0 + occ@[q] - 1) < n by {
                lemma_count_prefix(l, l[q], q + 1);
                lemma_count_total(l, l[q]);
                assert(l.subrange(0, q + 1).drop_last() =~= l.subrange(0, q));
            }
            assert(directory@.contains(0int as usize));
            let z = choose|r: int| 0 <= r < n && directory@[r] == 0;
            assert(l[z] == TERMINATOR);
        }
        FMIndex { bwt_l, char_counts, occ, directory, text: Ghost(s@) }
    }

    /// The number of occurrences of `pattern` that `matches` reports.
    pub fn count(&self, pattern: &[u8]) -> (r: usize)
        requires
            self.wf(),
            pattern@.len() > 0,
        ensures
            r == self.matches_spec(pattern@).len(),
    {
        self.matches(pattern).len()
    }

    /// Whether the bytes `pattern[0..k]`, read backwards, lie in the last
    /// column along the rows reached from row `i` by `lf`.
    pub closed spec fn walk(&self, pattern: Seq<u8>, k: nat, i: int) -> bool
        decreases k,
    {
        if k == 0 {
            true
        } else {
            self.bwt_l@[i] == pattern[k - 1] && self.walk(pattern, (k - 1) as nat, self.lf(i))
        }
    }

    /// Positions reported for rows `from..to` of the block of rows that
    /// start with the last byte of `pattern`.
    pub closed spec fn matches_from(&self, pattern: Seq<u8>, from: int, to: int) -> Seq<usize>
        decreases to - from,
    {
        if to <= from {
            seq![]
        } else {
            let prev = self.matches_from(pattern, from, to - 1);
            let k = pattern.len() - 1;
            let i = to - 1;
            if self.walk(pattern, k as nat, i) && self.directory@[i] >= k {
                prev.push((self.directory@[i] - k) as usize)
            } else {
                prev
            }
        }
    }

    /// The start positions, in row order, of the rows that begin with
    /// `pattern` when read back through the index.
    pub open spec fn matches_spec(&self, pattern: Seq<u8>) -> Seq<usize> {
        self.matches_from(
            pattern,
            self.start_of(pattern.last()) as int,
            self.end_of(pattern.last()) as int,
        )
    }

    /// Start positions of `pattern` found by walking back from each row that
    /// starts with its last byte.
    pub fn matches(&self, pattern: &[u8]) -> (r: Vec<usize>)
        requires
            self.wf(),
            pattern@.len() > 0,
        ensures
            r@ == self.matches_spec(pattern@),
    {
        let last = pattern[pattern.len() - 1];
        let (start, end) = self.char_counts[last as usize];
        let k = pattern.len() - 1;
        let mut valid: Vec<usize> = Vec::new();
        let mut i: usize = start;
        proof {
            lemma_count_total(self.bwt_l@, last);
        }
        while i < end
            invariant
                self.wf(),
                pattern@.len() > 0,
                k == pattern@.len() - 1,
                start == self.start_of(pattern@.last()),
                end == self.end_of(pattern@.last()),
                end <= self.len(),
                start <= i,
                i <= end || start > end,
                valid@ == self.matches_from(pattern@, start as int, i as int),
            decreases end - i,
        {
            let mut index: usize = i;
            let mut j: usize = k;
            let mut validity = true;
            while j > 0
                invariant
                    self.wf(),
                    j <= k,
                    k == pattern@.len() - 1,
                    index < self.len(),
                    self.walk(pattern@, k as nat, i as int) == (validity && self.walk(pattern@, j as nat, index as int)),
                decreases j,
            {
                if pattern[j - 1] != self.bwt_l[index] {
                    validity = false;
                    j = 0;
                } else {
                    index = self.lf_transform(index);
                    j = j - 1;
                }
            }
            if validity && self.directory[i] >= k {
                valid.push(self.directory[i] - k);
            }
            i = i + 1;
        }
        valid
    }

    fn lf_transform(&self, index: usize) -> (r: usize)
        requires
            self.wf(),
            index < self.len(),
        ensures
            r == self.lf(index as int),
            r < self.len(),
    {
        assert(0 <= self.lf(index as int) < self.len());
        let c = self.bwt_l[index];
        self.char_counts[c as usize].0 + self.occ[index] - 1
    }

    /// Reverses the transform from row `i`, `k` times: the bytes met, in
    /// the order they are met.
    pub closed spec fn unwind(&self, k: nat, i: int) -> Seq<u8>
        decreases k,
    {
        if k == 0 {
            seq![]
        } else {
            seq![self.bwt_l@[self.lf(i)]] + self.unwind((k - 1) as nat, self.lf(i))
        }
    }

    /// The first row whose last byte is the terminator.
    pub closed spec fn terminator_row(&self) -> int {
        choose|r: int|
            0 <= r < self.len() && self.bwt_l@[r] == TERMINATOR && forall|q: int|
                0 <= q < r ==> self.bwt_l@[q] != TERMINATOR
    }

    /// Rebuilds a text from the last column, starting at the row that ends
    /// with the terminator and following `lf` once for each other byte.
    pub fn ibwt(&self) -> (r: Vec<u8>)
        requires
            self.wf(),
        ensures
            r@ == backwards(self.unwind((self.len() - 1) as nat, self.terminator_row())),
    {
        let n = self.bwt_l.len();
        let mut index: usize = 0;
        while self.bwt_l[index] != TERMINATOR
            invariant
                self.wf(),
                n == self.len(),
                index < n,
                forall|q: int| 0 <= q < index ==> self.bwt_l@[q] != TERMINATOR,
            decreases n - index,
        {
            index = index + 1;
        }
        let ghost first = index as int;
        proof {
            let t = self.terminator_row();
            assert(0 <= first < n && self.bwt_l@[first] == TERMINATOR && forall|q: int|
                0 <= q < first ==> self.bwt_l@[q] != TERMINATOR);
            assert(t == first);
        }
        let mut output: Vec<u8> = Vec::new();
        let mut step: usize = 0;
        while step < n - 1
            invariant
                self.wf(),
                n == self.len(),
                index < n,
                step <= n - 1,
                first == self.terminator_row(),
                output@ + self.unwind((n - 1 - step) as nat, index as int) == self.unwind((n - 1) as nat, first),
            decreases n - 1 - step,
        {
            let ghost before = index as int;
            index = self.lf_transform(index);
            output.push(self.bwt_l[index]);
            proof {
                let rest = self.unwind((n - 1 - step - 1) as nat, index as int);
                assert(self.unwind((n - 1 - step) as nat, before) == seq![self.bwt_l@[index as int]] + rest);
                assert(output@ + rest =~= output@.drop_last() + (seq![self.bwt_l@[index as int]] + rest));
            }
            step = step + 1;
        }
        proof {
            assert(output@ + seq![] =~= output@);
        }
        reversed(&output)
    }

    /// Sorts the rotations of `s` and returns their last column and their
    /// start positions, row by row.
    fn bwt(s: &Vec<u8>) -> (r: (Vec<u8>, Vec<usize>))
        requires
            1 <= s@.len() < usize::MAX / 2,
        ensures
            sorted_rotations(s@, r.1@),
            r.0@.len() == s@.len(),
            forall|q: int|
                0 <= q < s@.len() ==> r.0@[q] == s@[if r.1@[q] == 0 {
                    s@.len() - 1
                } else {
                    r.1@[q] - 1
                }],
    {
        let rows = sort_rotations(s);
        let n = s.len();
        let mut last: Vec<u8> = Vec::new();
        let mut q: usize = 0;
        while q < n
            invariant
                n == s@.len(),
                sorted_rotations(s@, rows@),
                q <= n,
                last@.len() == q,
                forall|t: int|
                    0 <= t < q ==> last@[t] == s@[if rows@[t] == 0 {
                        n - 1
                    } else {
                        rows@[t] - 1
                    }],
            decreases n - q,
        {
            let p = rows[q];
            last.push(if p == 0 {
                s[n - 1]
            } else {
                s[p - 1]
            });
            q = q + 1;
        }
        (last, rows)
    }
}

/// Whether the rotation of `s` at `p` comes before the one at `q`.
fn rotation_less(s: &Vec<u8>, p: usize, q: usize) -> (r: bool)
    requires
        p < s@.len(),
        q < s@.len(),
        s@.len() < usize::MAX / 2,
    ensures
        r == lex_lt(rotation(s@, p as int), rotation(s@, q as int)),
{
    let n = s.len();
    let ghost a = rotation(s@, p as int);
    let ghost b = rotation(s@, q as int);
    let mut x: usize = 0;
    while x < n
        invariant
            n == s@.len(),
            n < usize::MAX / 2,
            p < n,
            q < n,
            a == rotation(s@, p as int),
            b == rotation(s@, q as int),
            x <= n,
            forall|y: int| 0 <= y < x ==> a[y] == b[y],
        decreases n - x,
    {
        let u = s[if p + x < n {
            p + x
        } else {
            p + x - n
        }];
        let v = s[if q + x < n {
            q + x
        } else {
            q + x - n
        }];
        if u != v {
            proof {
                assert(a[x as int] == u && b[x as int] == v);
                if u > v {
                    assert forall|k: int|
                        0 <= k < a.len() && k < b.len() && (forall|y: int| 0 <= y < k ==> a[y] == b[y])
                        implies !(a[k] < b[k]) by {
                        if k > x {
                            assert(a[x as int] == b[x as int]);
                        }
                    }
                }
            }
            return u < v;
        }
        x = x + 1;
    }
    false
}

proof fn lemma_lex_lt_transitive(a: Seq<u8>, b: Seq<u8>, c: Seq<u8>)
    requires
        a.len() == b.len() == c.len(),
        lex_lt(a, b),
        lex_lt(b, c),
    ensures
        lex_lt(a, c),
{
    let k1 = choose|k: int|
        0 <= k < a.len() && k < b.len() && (forall|x: int| 0 <= x < k ==> a[x] == b[x]) && a[k] < b[k];
    let k2 = choose|k: int|
        0 <= k < b.len() && k < c.len() && (forall|x: int| 0 <= x < k ==> b[x] == c[x]) && b[k] < c[k];
    let k = if k1 <= k2 {
        k1
    } else {
        k2
    };
    assert(forall|x: int| 0 <= x < k ==> a[x] == c[x]);
    assert(a[k] < c[k]);
}

/// Insertion sort of the rotation starts of `s`.
fn sort_rotations(s: &Vec<u8>) -> (rows: Vec<usize>)
    requires
        1 <= s@.len() < usize::MAX / 2,
    ensures
        sorted_rotations(s@, rows@),
{
    let n = s.len();
    let mut rows: Vec<usize> = Vec::new();
    let mut p: usize = 0;
    while p < n
        invariant
            n == s@.len(),
            n < usize::MAX / 2,
            p <= n,
            rows@.len() == p,
            forall|r: int| 0 <= r < p ==> rows@[r] < p,
            forall|t: int| 0 <= t < p ==> #[trigger] rows@.contains(t as usize),
            forall|a: int, b: int|
                0 <= a < b < p ==> !lex_lt(rotation(s@, rows@[b] as int), rotation(s@, rows@[a] as int)),
        decreases n - p,
    {
        let ghost rp = rotation(s@, p as int);
        let mut pos: usize = 0;
        while pos < rows.len() && !rotation_less(s, p, rows[pos])
            invariant
                n == s@.len(),
                n < usize::MAX / 2,
                p < n,
                rows@.len() == p,
                forall|r: int| 0 <= r < p ==> rows@[r] < p,
                pos <= p,
                rp == rotation(s@, p as int),
                forall|a: int| 0 <= a < pos ==> !lex_lt(rp, rotation(s@, rows@[a] as int)),
            decreases p - pos,
        {
            pos = pos + 1;
        }
        let ghost old_rows = rows@;
        rows.insert(pos, p);
        proof {
            assert(pos < p ==> lex_lt(rp, rotation(s@, old_rows[pos as int] as int)));
            assert forall|a: int, b: int|
                0 <= a < b < p + 1 implies !lex_lt(
                    rotation(s@, rows@[b] as int),
                    rotation(s@, rows@[a] as int),
                ) by {
                if a == pos as int {
                    if lex_lt(rotation(s@, rows@[b] as int), rp) {
                        lemma_lex_lt_transitive(
                            rotation(s@, rows@[b] as int),
                            rp,
                            rotation(s@, old_rows[pos as int] as int),
                        );
                    }
                }
            }
            assert forall|t: int| 0 <= t < p + 1 implies #[trigger] rows@.contains(t as usize) by {
                if t < p {
                    assert(old_rows.contains(t as usize));
                    let w = choose|w: int| 0 <= w < old_rows.len() && old_rows[w] == t as usize;
                    if w < pos {
                        assert(rows@[w] == t as usize);
                    } else {
                        assert(rows@[w + 1] == t as usize);
                    }
                } else {
                    assert(rows@[pos as int] == p);
                }
            }
        }
        p = p + 1;
    }
    rows
}

/// Counting through a multiset agrees with counting along the sequence.
proof fn lemma_count_matches_multiset(s: Seq<u8>, c: u8)
    ensures
        s.to_multiset().count(c) == count_eq(s, c),
        s.to_multiset().len() == s.len(),
    decreases s.len(),
{
    s.to_multiset_ensures();
    if s.len() > 0 {
        lemma_count_matches_multiset(s.drop_last(), c);
        s.drop_last().to_multiset_ensures();
        assert(s =~= s.drop_last().push(s.last()));
    }
}

proof fn lemma_count_total(s: Seq<u8>, c: u8)
    ensures
        count_less(s, c) + count_eq(s, c) <= s.len(),
    decreases s.len(),
{
    if s.len() > 0 {
        lemma_count_total(s.drop_last(), c);
    }
}

proof fn lemma_count_prefix(s: Seq<u8>, c: u8, k: int)
    requires
        0 <= k <= s.len(),
    ensures
        count_eq(s.subrange(0, k), c) <= count_eq(s, c),
    decreases s.len() - k,
{
    if k < s.len() {
        lemma_count_prefix(s, c, k + 1);
        assert(s.subrange(0, k + 1).drop_last() =~= s.subrange(0, k));
    } else {
        assert(s.subrange(0, k) =~= s);
    }
}

} // verus!
