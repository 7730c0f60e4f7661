//! Optimal local alignment with affine gap penalties: the three-matrix
//! dynamic-programming recurrence over a substitution matrix, the row-major
//! tracking of the best substitution cell, and the traceback that rebuilds the
//! reported alignment together with its per-column annotation.

use vstd::prelude::*;
use crate::similarity_matrix::{SimilarityMatrix, entries_within, score_or_zero};

verus! {

/// The inputs of one alignment run, as the specification functions see them:
/// the two symbol sequences, the score table, and the two non-negative gap
/// penalty magnitudes.
pub struct AlignInput {
    pub s1: Seq<char>,
    pub s2: Seq<char>,
    pub sim: Map<(char, char), i32>,
    pub go: int,
    pub ge: int,
}

pub open spec fn align_input(
    s1: Seq<char>,
    s2: Seq<char>,
    sim: Map<(char, char), i32>,
    go: int,
    ge: int,
) -> AlignInput {
    AlignInput { s1, s2, sim, go, ge }
}

/// Value and recorded origin of one cell of the substitution grid `M`.
///
/// Origin codes are those of the traceback grid: 0 stop, 1 from `M`, 2 from
/// `Ix`, 3 from `Iy`. The three candidates are compared with `>=` in the
/// order `M`, `Ix`, `Iy`, so on a tie the origin evaluated later wins; a
/// negative value is clamped to 0 with origin "stop".
pub open spec fn m_cell(inp: AlignInput, i: int, j: int) -> (int, int)
    decreases i + j, 1int,
{
    if i <= 0 || j <= 0 {
        (0, 0)
    } else {
        let s = score_or_zero(inp.sim, inp.s1[i - 1], inp.s2[j - 1]);
        let from_m = m_val(inp, i - 1, j - 1) + s;
        let from_ix = ix_val(inp, i - 1, j - 1) + s;
        let from_iy = iy_val(inp, i - 1, j - 1) + s;
        let v2 = if from_ix >= from_m { from_ix } else { from_m };
        let t2 = if from_ix >= from_m { 2int } else { 1int };
        let v3 = if from_iy >= v2 { from_iy } else { v2 };
        let t3 = if from_iy >= v2 { 3int } else { t2 };
        if v3 < 0 {
            (0, 0)
        } else {
            (v3, t3)
        }
    }
}

/// Best score of a local alignment ending at `(i, j)` with the two symbols
/// aligned to each other.
pub open spec fn m_val(inp: AlignInput, i: int, j: int) -> int
    decreases i + j, 2int,
{
    m_cell(inp, i, j).0
}

/// Origin recorded for cell `(i, j)` of the substitution grid.
pub open spec fn trace_val(inp: AlignInput, i: int, j: int) -> int
    decreases i + j, 2int,
{
    m_cell(inp, i, j).1
}

/// Best score of an alignment ending at `(i, j)` with a gap in the second
/// sequence. The first column carries the affine boundary penalty.
pub open spec fn ix_val(inp: AlignInput, i: int, j: int) -> int
    decreases i + j, 3int,
{
    if i <= 0 {
        0
    } else if j <= 0 {
        -(inp.go + i * inp.ge)
    } else {
        let open_x = m_val(inp, i - 1, j) - inp.go - inp.ge;
        let ext_x = ix_val(inp, i - 1, j) - inp.ge;
        let best = if open_x >= ext_x {
            open_x
        } else {
            ext_x
        };
        if best >= 0 {
            best
        } else {
            0
        }
    }
}

/// Best score of an alignment ending at `(i, j)` with a gap in the first
/// sequence. The first row carries the affine boundary penalty.
pub open spec fn iy_val(inp: AlignInput, i: int, j: int) -> int
    decreases i + j, 3int,
{
    if j <= 0 {
        0
    } else if i <= 0 {
        -(inp.go + j * inp.ge)
    } else {
        let open_y = m_val(inp, i, j - 1) - inp.go - inp.ge;
        let ext_y = iy_val(inp, i, j - 1) - inp.ge;
        let best = if open_y >= ext_y {
            open_y
        } else {
            ext_y
        };
        if best >= 0 {
            best
        } else {
            0
        }
    }
}

/// Replaces the running best `(score, i, j)` by the cell `(i, j)` exactly
/// when its value is strictly greater, so the first occurrence in scan order
/// is kept on ties.
pub open spec fn better(cur: (int, int, int), v: int, i: int, j: int) -> (int, int, int) {
    if v > cur.0 {
        (v, i, j)
    } else {
        cur
    }
}

/// The best `(score, i, j)` over the substitution grid cells scanned in
/// row-major order through row `i`, column `j`; starts at `(0, 0, 0)`.
pub open spec fn best_upto(inp: AlignInput, i: int, j: int) -> (int, int, int)
    decreases i, j,
{
    if i <= 0 {
        (0, 0, 0)
    } else if j <= 0 {
        best_upto(inp, i - 1, inp.s2.len() as int)
    } else {
        better(best_upto(inp, i, j - 1), m_val(inp, i, j), i, j)
    }
}

/// The overall best `(score, i, j)` of the run: the whole grid scanned.
pub open spec fn spec_best(inp: AlignInput) -> (int, int, int) {
    best_upto(inp, inp.s1.len() as int, inp.s2.len() as int)
}

/// The state the traceback switches to after leaving the substitution grid
/// through origin `tr`.
pub open spec fn next_state(tr: int) -> int {
    if tr == 1 {
        0int
    } else if tr == 2 {
        1int
    } else {
        2int
    }
}

/// The aligned symbol pairs emitted by the backward walk from `(i, j)` in
/// state `st` (0 substitution, 1 gap in the second sequence, 2 gap in the
/// first), in emission order, gaps written as `'-'`. In a gap state the walk
/// decides whether to return to the substitution state by recomputing which
/// branch of the recurrence produced the current cell, preferring the opening
/// branch on a tie.
pub open spec fn tb_pairs(inp: AlignInput, i: int, j: int, st: int) -> Seq<(char, char)>
    decreases i + j,
{
    if i <= 0 || j <= 0 {
        Seq::empty()
    } else if st == 0 {
        let tr = trace_val(inp, i, j);
        if tr == 0 {
            Seq::empty()
        } else {
            seq![(inp.s1[i - 1], inp.s2[j - 1])] + tb_pairs(inp, i - 1, j - 1, next_state(tr))
        }
    } else if st == 1 {
        if ix_val(inp, i, j) == 0 {
            Seq::empty()
        } else {
            let back = i - 1 > 0 && m_val(inp, i - 1, j) - inp.go - inp.ge >= ix_val(inp, i - 1, j)
                - inp.ge;
            seq![(inp.s1[i - 1], '-')] + tb_pairs(inp, i - 1, j, if back { 0int } else { 1int })
        }
    } else {
        if iy_val(inp, i, j) == 0 {
            Seq::empty()
        } else {
            let back = j - 1 > 0 && m_val(inp, i, j - 1) - inp.go - inp.ge >= iy_val(inp, i, j - 1)
                - inp.ge;
            seq![('-', inp.s2[j - 1])] + tb_pairs(inp, i, j - 1, if back { 0int } else { 2int })
        }
    }
}

/// The annotation character of one alignment column: `'|'` for identical
/// non-gap symbols, `':'` for differing non-gap symbols, a space when either
/// side is a gap.
pub open spec fn ann_char(c1: char, c2: char) -> char {
    if c1 == c2 && c1 != '-' {
        '|'
    } else if c1 != '-' && c2 != '-' {
        ':'
    } else {
        ' '
    }
}

/// The column-by-column annotation of two aligned rows of equal length.
pub open spec fn annotation_of(a1: Seq<char>, a2: Seq<char>) -> Seq<char> {
    Seq::new(a1.len(), |k: int| ann_char(a1[k], a2[k]))
}

/// The aligned symbol pairs of the whole run, in left-to-right order.
pub open spec fn spec_pairs(inp: AlignInput) -> Seq<(char, char)> {
    tb_pairs(inp, spec_best(inp).1, spec_best(inp).2, 0).reverse()
}

/// The first components of a sequence of aligned pairs.
pub open spec fn firsts(ps: Seq<(char, char)>) -> Seq<char> {
    ps.map_values(|p: (char, char)| p.0)
}

/// The second components of a sequence of aligned pairs.
pub open spec fn seconds(ps: Seq<(char, char)>) -> Seq<char> {
    ps.map_values(|p: (char, char)| p.1)
}

/// The first reported row: the aligned part of the first sequence.
pub open spec fn spec_aligned1(inp: AlignInput) -> Seq<char> {
    firsts(spec_pairs(inp))
}

/// The second reported row: the aligned part of the second sequence.
pub open spec fn spec_aligned2(inp: AlignInput) -> Seq<char> {
    seconds(spec_pairs(inp))
}

/// The third reported row: the annotation of the two aligned rows.
pub open spec fn spec_annotation(inp: AlignInput) -> Seq<char> {
    annotation_of(spec_aligned1(inp), spec_aligned2(inp))
}

/// The result of one alignment run as a single value: optimal score, the two
/// aligned rows, and their annotation.
pub open spec fn spec_result(inp: AlignInput) -> (int, Seq<char>, Seq<char>, Seq<char>) {
    (spec_best(inp).0, spec_aligned1(inp), spec_aligned2(inp), spec_annotation(inp))
}

/// Determinism: the reported alignment is a function of the sequences, the
/// table and the penalties alone, so two runs on the same inputs — including
/// their tie-break choices — yield the identical result.
pub proof fn lemma_deterministic(
    inp: AlignInput,
    r1: (int, Seq<char>, Seq<char>, Seq<char>),
    r2: (int, Seq<char>, Seq<char>, Seq<char>),
)
    requires
        r1 == spec_result(inp),
        r2 == spec_result(inp),
    ensures
        r1 == r2,
{
}

/// Annotation consistency, column by column: `|` marks exactly the columns
/// whose two symbols are equal and not gaps, `:` exactly the columns with two
/// differing non-gap symbols, and a space exactly the columns with a gap on
/// either side.
pub proof fn lemma_annotation_consistent(a1: Seq<char>, a2: Seq<char>, k: int)
    requires
        a1.len() == a2.len(),
        0 <= k < a1.len(),
    ensures
        annotation_of(a1, a2)[k] == '|' <==> (a1[k] == a2[k] && a1[k] != '-'),
        annotation_of(a1, a2)[k] == ':' <==> (a1[k] != '-' && a2[k] != '-' && a1[k] != a2[k]),
        annotation_of(a1, a2)[k] == ' ' <==> (a1[k] == '-' || a2[k] == '-'),
{
}

/// The characters of a row that are not gap markers, in order.
pub open spec fn non_gaps(s: Seq<char>) -> Seq<char>
    decreases s.len(),
{
    if s.len() == 0 {
        Seq::empty()
    } else if s[0] != '-' {
        seq![s[0]] + non_gaps(s.drop_first())
    } else {
        non_gaps(s.drop_first())
    }
}

/// Dropping the gap markers distributes over concatenation.
proof fn lemma_non_gaps_add(a: Seq<char>, b: Seq<char>)
    ensures
        non_gaps(a + b) == non_gaps(a) + non_gaps(b),
    decreases a.len(),
{
    if a.len() == 0 {
        assert(a + b =~= b);
        assert(non_gaps(a) + non_gaps(b) =~= non_gaps(b));
    } else {
        assert((a + b).drop_first() =~= a.drop_first() + b);
        assert((a + b)[0] == a[0]);
        lemma_non_gaps_add(a.drop_first(), b);
        if a[0] != '-' {
            assert(seq![a[0]] + (non_gaps(a.drop_first()) + non_gaps(b)) =~= (seq![a[0]]
                + non_gaps(a.drop_first())) + non_gaps(b));
        }
    }
}

/// The run cannot overflow 32-bit arithmetic: every grid value and every
/// intermediate sum stays within `(len1 + len2 + 2) * (s + go + ge)`, which
/// itself fits.
pub open spec fn fits(inp: AlignInput, s: int) -> bool {
    &&& 0 <= s
    &&& 0 <= inp.go
    &&& 0 <= inp.ge
    &&& entries_within(inp.sim, s)
    &&& (inp.s1.len() + inp.s2.len() + 2) * (s + inp.go + inp.ge) <= i32::MAX
}

/// A looked-up score lies within the magnitude bound of the table.
pub proof fn lemma_score_bound(m: Map<(char, char), i32>, s: int, a: char, b: char)
    requires
        entries_within(m, s),
        0 <= s,
    ensures
        -s <= score_or_zero(m, a, b) <= s,
{
}

/// Bounds of the three grids: substitution values are non-negative and all
/// values are bounded by the scan position times the score magnitude, while
/// gap values sit above the affine boundary penalty of their lane.
pub proof fn lemma_cell_bounds(inp: AlignInput, s: int, i: int, j: int)
    requires
        0 <= s,
        0 <= inp.go,
        0 <= inp.ge,
        entries_within(inp.sim, s),
        0 <= i,
        0 <= j,
    ensures
        0 <= m_val(inp, i, j) <= (i + j) * s,
        -(inp.go + i * inp.ge) <= ix_val(inp, i, j) <= (i + j) * s,
        -(inp.go + j * inp.ge) <= iy_val(inp, i, j) <= (i + j) * s,
        j >= 1 ==> ix_val(inp, i, j) >= 0,
        i >= 1 ==> iy_val(inp, i, j) >= 0,
    decreases i + j,
{
    assert(0 <= (i + j) * s) by (nonlinear_arith)
        requires 0 <= i, 0 <= j, 0 <= s;
    assert(0 <= i * inp.ge) by (nonlinear_arith)
        requires 0 <= i, 0 <= inp.ge;
    assert(0 <= j * inp.ge) by (nonlinear_arith)
        requires 0 <= j, 0 <= inp.ge;
    if i >= 1 && j >= 1 {
        lemma_cell_bounds(inp, s, i - 1, j - 1);
        lemma_cell_bounds(inp, s, i - 1, j);
        lemma_cell_bounds(inp, s, i, j - 1);
        lemma_score_bound(inp.sim, s, inp.s1[i - 1], inp.s2[j - 1]);
        assert((i + j - 2) * s + s <= (i + j) * s && (i + j - 1) * s <= (i + j) * s)
            by (nonlinear_arith)
            requires 0 <= s, 2 <= i + j;
    }
}

/// The boundary penalty `go + k * ge` is non-negative and fits 32 bits.
pub proof fn lemma_boundary_bound(inp: AlignInput, s: int, k: int)
    requires
        fits(inp, s),
        0 <= k <= inp.s1.len() + inp.s2.len(),
    ensures
        0 <= inp.go + k * inp.ge,
        inp.go + k * inp.ge <= i32::MAX,
{
    let l = inp.s1.len() + inp.s2.len() + 2;
    assert(0 <= k * inp.ge) by (nonlinear_arith)
        requires 0 <= k, 0 <= inp.ge;
    assert(inp.go + k * inp.ge <= l * (s + inp.go + inp.ge)) by (nonlinear_arith)
        requires 0 <= s, 0 <= inp.go, 0 <= inp.ge, 0 <= k, k + 2 <= l;
}

/// Every grid value lies within `c`, and `c` leaves one more score or penalty
/// step of room below `i32::MAX`, so every intermediate sum of the fill pass
/// fits 32 bits.
pub proof fn lemma_vals_in_range(inp: AlignInput, s: int, i: int, j: int)
    requires
        fits(inp, s),
        0 <= i <= inp.s1.len(),
        0 <= j <= inp.s2.len(),
    ensures
        ({
            let c = (inp.s1.len() + inp.s2.len() + 1) * (s + inp.go + inp.ge);
            &&& 0 <= c
            &&& c + (s + inp.go + inp.ge) <= i32::MAX
            &&& 0 <= m_val(inp, i, j) <= c
            &&& -c <= ix_val(inp, i, j) <= c
            &&& -c <= iy_val(inp, i, j) <= c
        }),
{
    let n = inp.s1.len() as int;
    let m = inp.s2.len() as int;
    let g = s + inp.go + inp.ge;
    let c = (n + m + 1) * g;
    lemma_cell_bounds(inp, s, i, j);
    assert(0 <= c && c + g == (n + m + 2) * g) by (nonlinear_arith)
        requires 0 <= s, 0 <= inp.go, 0 <= inp.ge, 0 <= n, 0 <= m, c == (n + m + 1) * g, g == s
            + inp.go + inp.ge;
    assert((i + j) * s <= c) by (nonlinear_arith)
        requires 0 <= s, 0 <= inp.go, 0 <= inp.ge, 0 <= i <= n, 0 <= j <= m, c == (n + m + 1) * (s
            + inp.go + inp.ge);
    assert(inp.go + i * inp.ge <= c && inp.go + j * inp.ge <= c) by (nonlinear_arith)
        requires 0 <= s, 0 <= inp.go, 0 <= inp.ge, 0 <= i <= n, 0 <= j <= m, c == (n + m + 1) * (s
            + inp.go + inp.ge);
}

/// The recorded origin of a substitution cell is one of the four codes.
pub proof fn lemma_trace_range(inp: AlignInput, i: int, j: int)
    ensures
        0 <= trace_val(inp, i, j) <= 3,
{
    assert(0 <= m_cell(inp, i, j).1 <= 3);
}

/// The running best of the scan has a non-negative score and coordinates
/// within the scanned part of the grid.
pub proof fn lemma_best_range(inp: AlignInput, i: int, j: int)
    requires
        0 <= i <= inp.s1.len(),
        0 <= j <= inp.s2.len(),
    ensures
        0 <= best_upto(inp, i, j).0,
        0 <= best_upto(inp, i, j).1 <= i,
        0 <= best_upto(inp, i, j).2 <= inp.s2.len(),
    decreases i, j,
{
    if i <= 0 {
    } else if j <= 0 {
        lemma_best_range(inp, i - 1, inp.s2.len() as int);
    } else {
        lemma_best_range(inp, i, j - 1);
    }
}

/// A row of `len` zeroed 32-bit cells.
fn zero_row(len: usize) -> (r: Vec<i32>)
    ensures
        r@.len() == len,
        forall|k: int| 0 <= k < len ==> r@[k] == 0i32,
{
    let mut r: Vec<i32> = Vec::new();
    let mut k: usize = 0;
    while k < len
        invariant
            k <= len,
            r@.len() == k,
            forall|t: int| 0 <= t < k ==> r@[t] == 0i32,
        decreases len - k,
    {
        r.push(0);
        k = k + 1;
    }
    r
}

/// A row of `len` zeroed origin codes.
fn zero_row_u8(len: usize) -> (r: Vec<u8>)
    ensures
        r@.len() == len,
        forall|k: int| 0 <= k < len ==> r@[k] == 0u8,
{
    let mut r: Vec<u8> = Vec::new();
    let mut k: usize = 0;
    while k < len
        invariant
            k <= len,
            r@.len() == k,
            forall|t: int| 0 <= t < k ==> r@[t] == 0u8,
        decreases len - k,
    {
        r.push(0);
        k = k + 1;
    }
    r
}

/// The whole state of the four grids after the fill pass: sizes
/// `(len1 + 1) x (len2 + 1)`, and every cell equal to its recurrence value.
pub open spec fn grids_match(
    inp: AlignInput,
    trg: Seq<Vec<u8>>,
    mg: Seq<Vec<i32>>,
    ixg: Seq<Vec<i32>>,
    iyg: Seq<Vec<i32>>,
) -> bool {
    let n = inp.s1.len() as int;
    let m = inp.s2.len() as int;
    &&& mg.len() == n + 1 && ixg.len() == n + 1 && iyg.len() == n + 1 && trg.len() == n + 1
    &&& forall|i: int|
        0 <= i <= n ==> (#[trigger] mg[i])@.len() == m + 1 && ixg[i]@.len() == m + 1
            && iyg[i]@.len() == m + 1 && trg[i]@.len() == m + 1
    &&& forall|i: int, j: int|
        0 <= i <= n && 0 <= j <= m ==> (#[trigger] mg[i]@[j]) as int == m_val(inp, i, j)
    &&& forall|i: int, j: int|
        0 <= i <= n && 0 <= j <= m ==> (#[trigger] ixg[i]@[j]) as int == ix_val(inp, i, j)
    &&& forall|i: int, j: int|
        0 <= i <= n && 0 <= j <= m ==> (#[trigger] iyg[i]@[j]) as int == iy_val(inp, i, j)
    &&& forall|i: int, j: int|
        0 <= i <= n && 0 <= j <= m ==> (#[trigger] trg[i]@[j]) as int == trace_val(inp, i, j)
}

/// Computes the optimal local alignment of `seq1` against `seq2` under the
/// given substitution matrix and affine gap penalties (`gap_open` and
/// `gap_extend` are the non-negative magnitudes subtracted per gap opened and
/// per gap position). Returns the optimal score — 0 when no positive-scoring
/// local alignment exists — and the two aligned rows with their annotation,
/// exactly as the recurrence and traceback specification functions state.
pub fn smith_waterman(
    seq1: &str,
    seq2: &str,
    similarity_matrix: &SimilarityMatrix,
    gap_open: i32,
    gap_extend: i32,
) -> (r: (i32, String, String, String))
    requires
        gap_open >= 0,
        gap_extend >= 0,
        seq1@.len() + seq2@.len() + 2 <= i32::MAX,
        exists|s: int|
            fits(
                align_input(seq1@, seq2@, similarity_matrix@, gap_open as int, gap_extend as int),
                s,
            ),
    ensures
        ({
            let inp = align_input(
                seq1@,
                seq2@,
                similarity_matrix@,
                gap_open as int,
                gap_extend as int,
            );
            &&& r.0 as int == spec_best(inp).0
            &&& r.0 >= 0
            &&& r.1@ == spec_aligned1(inp)
            &&& r.2@ == spec_aligned2(inp)
            &&& r.3@ == spec_annotation(inp)
            &&& r.1@.len() == r.2@.len()
            &&& r.2@.len() == r.3@.len()
        }),
{
    let ghost inp = align_input(seq1@, seq2@, similarity_matrix@, gap_open as int, gap_extend as int);
    let ghost sb = choose|s: int| fits(inp, s);
    let s1 = crate::text::to_char_vec(seq1);
    let s2 = crate::text::to_char_vec(seq2);
    let seq1_len = s1.len();
    let seq2_len = s2.len();

    let mut alignment_score_sub: Vec<Vec<i32>> = Vec::new();
    let mut alignment_score_gap_x: Vec<Vec<i32>> = Vec::new();
    let mut alignment_score_gap_y: Vec<Vec<i32>> = Vec::new();
    let mut traceback_grid: Vec<Vec<u8>> = Vec::new();

    alignment_score_sub.push(zero_row(seq2_len + 1));
    alignment_score_gap_x.push(zero_row(seq2_len + 1));
    traceback_grid.push(zero_row_u8(seq2_len + 1));

    // Boundary row of the gap-in-first-sequence grid.
    let mut iy0: Vec<i32> = Vec::new();
    iy0.push(0);
    let mut j: usize = 1;
    while j <= seq2_len
        invariant
            fits(inp, sb),
            inp.go == gap_open as int,
            inp.ge == gap_extend as int,
            seq2_len == inp.s2.len(),
            inp.s1.len() + inp.s2.len() + 2 <= i32::MAX,
            1 <= j <= seq2_len + 1,
            iy0@.len() == j,
            forall|t: int| 0 <= t < j ==> (#[trigger] iy0@[t]) as int == iy_val(inp, 0, t),
        decreases seq2_len + 1 - j,
    {
        proof {
            lemma_boundary_bound(inp, sb, j as int);
        }
        iy0.push(-(gap_open + (j as i32) * gap_extend));
        proof {
            assert(iy0@[j as int] as int == iy_val(inp, 0, j as int));
        }
        j = j + 1;
    }
    alignment_score_gap_y.push(iy0);

    let mut max_score: i32 = 0;
    let mut max_i: usize = 0;
    let mut max_j: usize = 0;

    let mut i: usize = 1;
    while i <= seq1_len
        invariant
            fits(inp, sb),
            inp == align_input(seq1@, seq2@, similarity_matrix@, gap_open as int, gap_extend as int),
            s1@ == inp.s1,
            s2@ == inp.s2,
            seq1_len == inp.s1.len(),
            seq2_len == inp.s2.len(),
            inp.s1.len() + inp.s2.len() + 2 <= i32::MAX,
            1 <= i <= seq1_len + 1,
            alignment_score_sub@.len() == i,
            alignment_score_gap_x@.len() == i,
            alignment_score_gap_y@.len() == i,
            traceback_grid@.len() == i,
            forall|ii: int|
                0 <= ii < i ==> (#[trigger] alignment_score_sub@[ii])@.len() == seq2_len + 1
                    && alignment_score_gap_x@[ii]@.len() == seq2_len + 1
                    && alignment_score_gap_y@[ii]@.len() == seq2_len + 1
                    && traceback_grid@[ii]@.len() == seq2_len + 1,
            forall|ii: int, jj: int|
                0 <= ii < i && 0 <= jj <= seq2_len ==> (#[trigger] alignment_score_sub@[ii]@[jj])
                    as int == m_val(inp, ii, jj),
            forall|ii: int, jj: int|
                0 <= ii < i && 0 <= jj <= seq2_len ==> (#[trigger] alignment_score_gap_x@[ii]@[jj])
                    as int == ix_val(inp, ii, jj),
            forall|ii: int, jj: int|
                0 <= ii < i && 0 <= jj <= seq2_len ==> (#[trigger] alignment_score_gap_y@[ii]@[jj])
                    as int == iy_val(inp, ii, jj),
            forall|ii: int, jj: int|
                0 <= ii < i && 0 <= jj <= seq2_len ==> (#[trigger] traceback_grid@[ii]@[jj]) as int
                    == trace_val(inp, ii, jj),
            (max_score as int, max_i as int, max_j as int) == best_upto(
                inp,
                i - 1,
                seq2_len as int,
            ),
            max_i <= seq1_len,
            max_j <= seq2_len,
        decreases seq1_len + 1 - i,
    {
        let mut cur_m: Vec<i32> = Vec::new();
        let mut cur_ix: Vec<i32> = Vec::new();
        let mut cur_iy: Vec<i32> = Vec::new();
        let mut cur_tr: Vec<u8> = Vec::new();
        cur_m.push(0);
        proof {
            lemma_boundary_bound(inp, sb, i as int);
        }
        cur_ix.push(-(gap_open + (i as i32) * gap_extend));
        cur_iy.push(0);
        cur_tr.push(0);
        proof {
            assert(cur_m@[0] as int == m_val(inp, i as int, 0));
            assert(cur_ix@[0] as int == ix_val(inp, i as int, 0));
            assert(cur_iy@[0] as int == iy_val(inp, i as int, 0));
            assert(cur_tr@[0] as int == trace_val(inp, i as int, 0));
            assert(best_upto(inp, i as int, 0) == best_upto(inp, i - 1, seq2_len as int));
        }
        let mut j: usize = 1;
        while j <= seq2_len
            invariant
                fits(inp, sb),
                inp == align_input(
                    seq1@,
                    seq2@,
                    similarity_matrix@,
                    gap_open as int,
                    gap_extend as int,
                ),
                s1@ == inp.s1,
                s2@ == inp.s2,
                seq1_len == inp.s1.len(),
                seq2_len == inp.s2.len(),
                inp.s1.len() + inp.s2.len() + 2 <= i32::MAX,
                1 <= i <= seq1_len,
                1 <= j <= seq2_len + 1,
                alignment_score_sub@.len() == i,
                alignment_score_gap_x@.len() == i,
                alignment_score_gap_y@.len() == i,
                traceback_grid@.len() == i,
                forall|ii: int|
                    0 <= ii < i ==> (#[trigger] alignment_score_sub@[ii])@.len() == seq2_len + 1
                        && alignment_score_gap_x@[ii]@.len() == seq2_len + 1
                        && alignment_score_gap_y@[ii]@.len() == seq2_len + 1
                        && traceback_grid@[ii]@.len() == seq2_len + 1,
                forall|ii: int, jj: int|
                    0 <= ii < i && 0 <= jj <= seq2_len ==> (
                    #[trigger] alignment_score_sub@[ii]@[jj]) as int == m_val(inp, ii, jj),
                forall|ii: int, jj: int|
                    0 <= ii < i && 0 <= jj <= seq2_len ==> (
                    #[trigger] alignment_score_gap_x@[ii]@[jj]) as int == ix_val(inp, ii, jj),
                forall|ii: int, jj: int|
                    0 <= ii < i && 0 <= jj <= seq2_len ==> (
                    #[trigger] alignment_score_gap_y@[ii]@[jj]) as int == iy_val(inp, ii, jj),
                forall|ii: int, jj: int|
                    0 <= ii < i && 0 <= jj <= seq2_len ==> (#[trigger] traceback_grid@[ii]@[jj])
                        as int == trace_val(inp, ii, jj),
                cur_m@.len() == j,
                cur_ix@.len() == j,
                cur_iy@.len() == j,
                cur_tr@.len() == j,
                forall|jj: int|
                    0 <= jj < j ==> (#[trigger] cur_m@[jj]) as int == m_val(inp, i as int, jj),
                forall|jj: int|
                    0 <= jj < j ==> (#[trigger] cur_ix@[jj]) as int == ix_val(inp, i as int, jj),
                forall|jj: int|
                    0 <= jj < j ==> (#[trigger] cur_iy@[jj]) as int == iy_val(inp, i as int, jj),
                forall|jj: int|
                    0 <= jj < j ==> (#[trigger] cur_tr@[jj]) as int == trace_val(inp, i as int, jj),
                (max_score as int, max_i as int, max_j as int) == best_upto(inp, i as int, j - 1),
                max_i <= seq1_len,
                max_j <= seq2_len,
            decreases seq2_len + 1 - j,
        {
            let char1 = s1[i - 1];
            let char2 = s2[j - 1];
            let score = match similarity_matrix.get_score(char1, char2) {
                Some(v) => v,
                None => 0,
            };
            proof {
                lemma_vals_in_range(inp, sb, i - 1, j - 1);
                lemma_vals_in_range(inp, sb, i - 1, j as int);
                lemma_vals_in_range(inp, sb, i as int, j - 1);
                lemma_score_bound(inp.sim, sb, inp.s1[i - 1], inp.s2[j - 1]);
                assert((alignment_score_sub@[i - 1])@.len() == seq2_len + 1);
                assert(score as int == score_or_zero(inp.sim, inp.s1[i - 1], inp.s2[j - 1]));
            }

            // Substitution grid cell: three diagonal candidates, later `>=`
            // comparison winning a tie, negative values clamped to a stop.
            let sub_from_sub = alignment_score_sub[i - 1][j - 1] + score;
            let sub_from_gap_x = alignment_score_gap_x[i - 1][j - 1] + score;
            let sub_from_gap_y = alignment_score_gap_y[i - 1][j - 1] + score;

            let mut max_val = sub_from_sub;
            let mut trace_cur: u8 = 1;
            if sub_from_gap_x >= max_val {
                max_val = sub_from_gap_x;
                trace_cur = 2;
            }
            if sub_from_gap_y >= max_val {
                max_val = sub_from_gap_y;
                trace_cur = 3;
            }
            if max_val < 0 {
                max_val = 0;
                trace_cur = 0;
            }
            cur_m.push(max_val);
            cur_tr.push(trace_cur);
            proof {
                assert(m_cell(inp, i as int, j as int).0 == max_val as int && m_cell(
                    inp,
                    i as int,
                    j as int,
                ).1 == trace_cur as int);
            }

            // Gap in the second sequence: open from the substitution state or
            // extend, clamped at 0.
            let gap_x_from_m = alignment_score_sub[i - 1][j] - gap_open - gap_extend;
            let gap_x_extend = alignment_score_gap_x[i - 1][j] - gap_extend;
            let best_x = if gap_x_from_m >= gap_x_extend {
                gap_x_from_m
            } else {
                gap_x_extend
            };
            let val_x = if best_x >= 0 {
                best_x
            } else {
                0
            };
            cur_ix.push(val_x);

            // Gap in the first sequence, along the current row.
            let gap_y_from_m = cur_m[j - 1] - gap_open - gap_extend;
            let gap_y_extend = cur_iy[j - 1] - gap_extend;
            let best_y = if gap_y_from_m >= gap_y_extend {
                gap_y_from_m
            } else {
                gap_y_extend
            };
            let val_y = if best_y >= 0 {
                best_y
            } else {
                0
            };
            cur_iy.push(val_y);
            proof {
                assert(cur_ix@[j as int] as int == ix_val(inp, i as int, j as int));
                assert(cur_iy@[j as int] as int == iy_val(inp, i as int, j as int));
            }

            // Row-major tracking of the best substitution value: strict
            // comparison, so the first occurrence wins a tie.
            if cur_m[j] > max_score {
                max_score = cur_m[j];
                max_i = i;
                max_j = j;
            }
            proof {
                assert((max_score as int, max_i as int, max_j as int) == best_upto(
                    inp,
                    i as int,
                    j as int,
                ));
            }
            j = j + 1;
        }
        alignment_score_sub.push(cur_m);
        alignment_score_gap_x.push(cur_ix);
        alignment_score_gap_y.push(cur_iy);
        traceback_grid.push(cur_tr);
        i = i + 1;
    }

    proof {
        lemma_best_range(inp, seq1_len as int, seq2_len as int);
        assert(best_upto(inp, seq1_len as int, seq2_len as int) == spec_best(inp));
        assert(grids_match(
            inp,
            traceback_grid@,
            alignment_score_sub@,
            alignment_score_gap_x@,
            alignment_score_gap_y@,
        ));
    }

    let aligned = construct_alignment(
        max_i,
        max_j,
        seq1,
        seq2,
        &traceback_grid,
        &alignment_score_sub,
        &alignment_score_gap_x,
        &alignment_score_gap_y,
        gap_open,
        gap_extend,
        Ghost(similarity_matrix@),
    );
    (max_score, aligned.0, aligned.1, aligned.2)
}

/// The characters of `v` in reverse order.
fn rev_chars(v: &Vec<char>) -> (r: Vec<char>)
    ensures
        r@ == v@.reverse(),
{
    let mut r: Vec<char> = Vec::new();
    let mut i: usize = v.len();
    while i > 0
        invariant
            i <= v@.len(),
            r@.len() == v@.len() - i,
            forall|k: int| 0 <= k < r@.len() ==> r@[k] == v@[v@.len() - 1 - k],
        decreases i,
    {
        i = i - 1;
        r.push(v[i]);
    }
    proof {
        assert(r@ =~= v@.reverse());
    }
    r
}

/// Rebuilds the reported alignment by walking backward from `(max_i, max_j)`
/// through the filled grids, and annotates it column by column. The walk
/// follows the recorded origins in the substitution state and recomputes the
/// producing branch in the gap states, exactly as `tb_pairs` states.
pub fn construct_alignment(
    max_i: usize,
    max_j: usize,
    seq1: &str,
    seq2: &str,
    traceback: &Vec<Vec<u8>>,
    score_sub: &Vec<Vec<i32>>,
    score_gap_x: &Vec<Vec<i32>>,
    score_gap_y: &Vec<Vec<i32>>,
    gap_open: i32,
    gap_extend: i32,
    sim: Ghost<Map<(char, char), i32>>,
) -> (r: (String, String, String))
    requires
        grids_match(
            align_input(seq1@, seq2@, sim@, gap_open as int, gap_extend as int),
            traceback@,
            score_sub@,
            score_gap_x@,
            score_gap_y@,
        ),
        exists|s: int|
            fits(align_input(seq1@, seq2@, sim@, gap_open as int, gap_extend as int), s),
        max_i <= seq1@.len(),
        max_j <= seq2@.len(),
    ensures
        ({
            let inp = align_input(seq1@, seq2@, sim@, gap_open as int, gap_extend as int);
            let pairs = tb_pairs(inp, max_i as int, max_j as int, 0).reverse();
            &&& r.0@ == firsts(pairs)
            &&& r.1@ == seconds(pairs)
            &&& r.2@ == annotation_of(r.0@, r.1@)
        }),
{
    let ghost inp = align_input(seq1@, seq2@, sim@, gap_open as int, gap_extend as int);
    let ghost sb = choose|s: int| fits(inp, s);
    let s1 = crate::text::to_char_vec(seq1);
    let s2 = crate::text::to_char_vec(seq2);

    let mut aligned_seq1: Vec<char> = Vec::new();
    let mut aligned_seq2: Vec<char> = Vec::new();
    let ghost mut acc: Seq<(char, char)> = Seq::empty();

    let mut i = max_i;
    let mut j = max_j;
    // 0 = substitution state, 1 = gap in the second sequence, 2 = gap in the
    // first sequence
    let mut current_matrix: u8 = 0;

    while i > 0 && j > 0
        invariant_except_break
            grids_match(inp, traceback@, score_sub@, score_gap_x@, score_gap_y@),
            fits(inp, sb),
            inp == align_input(seq1@, seq2@, sim@, gap_open as int, gap_extend as int),
            s1@ == inp.s1,
            s2@ == inp.s2,
            i <= inp.s1.len(),
            j <= inp.s2.len(),
            current_matrix <= 2,
            tb_pairs(inp, max_i as int, max_j as int, 0) == acc + tb_pairs(
                inp,
                i as int,
                j as int,
                current_matrix as int,
            ),
            aligned_seq1@ == acc.map_values(|p: (char, char)| p.0),
            aligned_seq2@ == acc.map_values(|p: (char, char)| p.1),
        ensures
            tb_pairs(inp, max_i as int, max_j as int, 0) == acc,
            aligned_seq1@ == acc.map_values(|p: (char, char)| p.0),
            aligned_seq2@ == acc.map_values(|p: (char, char)| p.1),
        decreases i + j,
    {
        if current_matrix == 0 {
            proof {
                assert((score_sub@[i as int])@.len() == inp.s2.len() + 1);
            }
            let trace = traceback[i][j];
            proof {
                lemma_trace_range(inp, i as int, j as int);
            }
            if trace == 0 {
                break;
            }
            aligned_seq1.push(s1[i - 1]);
            aligned_seq2.push(s2[j - 1]);
            proof {
                let p = (inp.s1[i - 1], inp.s2[j - 1]);
                assert((acc + seq![p]).map_values(|q: (char, char)| q.0) =~= acc.map_values(
                    |q: (char, char)| q.0,
                ).push(p.0));
                assert((acc + seq![p]).map_values(|q: (char, char)| q.1) =~= acc.map_values(
                    |q: (char, char)| q.1,
                ).push(p.1));
            }
            proof {
                assert(acc + (seq![(inp.s1[i - 1], inp.s2[j - 1])] + tb_pairs(
                    inp,
                    i - 1,
                    j - 1,
                    next_state(trace as int),
                )) =~= (acc + seq![(inp.s1[i - 1], inp.s2[j - 1])]) + tb_pairs(
                    inp,
                    i - 1,
                    j - 1,
                    next_state(trace as int),
                ));
                acc = acc + seq![(inp.s1[i - 1], inp.s2[j - 1])];
            }
            i = i - 1;
            j = j - 1;
            current_matrix = if trace == 1 {
                0
            } else if trace == 2 {
                1
            } else {
                2
            };
        } else if current_matrix == 1 {
            proof {
                assert((score_sub@[i as int])@.len() == inp.s2.len() + 1);
            }
            if score_gap_x[i][j] == 0 {
                break;
            }
            aligned_seq1.push(s1[i - 1]);
            aligned_seq2.push('-');
            proof {
                let p = (inp.s1[i - 1], '-');
                let back = i - 1 > 0 && m_val(inp, i - 1, j as int) - inp.go - inp.ge >= ix_val(
                    inp,
                    i - 1,
                    j as int,
                ) - inp.ge;
                let rest = tb_pairs(inp, i - 1, j as int, if back { 0int } else { 1int });
                assert((acc + seq![p]).map_values(|q: (char, char)| q.0) =~= acc.map_values(
                    |q: (char, char)| q.0,
                ).push(p.0));
                assert((acc + seq![p]).map_values(|q: (char, char)| q.1) =~= acc.map_values(
                    |q: (char, char)| q.1,
                ).push(p.1));
                assert(acc + (seq![p] + rest) =~= (acc + seq![p]) + rest);
                acc = acc + seq![p];
            }
            i = i - 1;
            if i > 0 {
                proof {
                    lemma_vals_in_range(inp, sb, i as int, j as int);
                }
                let would_open = score_sub[i][j] - gap_open - gap_extend;
                let would_extend = score_gap_x[i][j] - gap_extend;
                if would_open >= would_extend {
                    current_matrix = 0;
                } else {
                    current_matrix = 1;
                }
            }
        } else {
            proof {
                assert((score_sub@[i as int])@.len() == inp.s2.len() + 1);
            }
            if score_gap_y[i][j] == 0 {
                break;
            }
            aligned_seq1.push('-');
            aligned_seq2.push(s2[j - 1]);
            proof {
                let p = ('-', inp.s2[j - 1]);
                let back = j - 1 > 0 && m_val(inp, i as int, j - 1) - inp.go - inp.ge >= iy_val(
                    inp,
                    i as int,
                    j - 1,
                ) - inp.ge;
                let rest = tb_pairs(inp, i as int, j - 1, if back { 0int } else { 2int });
                assert((acc + seq![p]).map_values(|q: (char, char)| q.0) =~= acc.map_values(
                    |q: (char, char)| q.0,
                ).push(p.0));
                assert((acc + seq![p]).map_values(|q: (char, char)| q.1) =~= acc.map_values(
                    |q: (char, char)| q.1,
                ).push(p.1));
                assert(acc + (seq![p] + rest) =~= (acc + seq![p]) + rest);
                acc = acc + seq![p];
            }
            j = j - 1;
            if j > 0 {
                proof {
                    lemma_vals_in_range(inp, sb, i as int, j as int);
                }
                let would_open = score_sub[i][j] - gap_open - gap_extend;
                let would_extend = score_gap_y[i][j] - gap_extend;
                if would_open >= would_extend {
                    current_matrix = 0;
                } else {
                    current_matrix = 2;
                }
            }
        }
    }

    let rev1 = rev_chars(&aligned_seq1);
    let rev2 = rev_chars(&aligned_seq2);
    proof {
        let pairs = tb_pairs(inp, max_i as int, max_j as int, 0).reverse();
        assert(rev1@ =~= firsts(pairs));
        assert(rev2@ =~= seconds(pairs));
    }

    let mut ann: Vec<char> = Vec::new();
    let mut k: usize = 0;
    while k < rev1.len()
        invariant
            rev1@.len() == rev2@.len(),
            k <= rev1@.len(),
            ann@ == annotation_of(rev1@, rev2@).take(k as int),
        decreases rev1@.len() - k,
    {
        let c1 = rev1[k];
        let c2 = rev2[k];
        let a = if c1 == c2 && c1 != '-' {
            '|'
        } else if c1 != '-' && c2 != '-' {
            ':'
        } else {
            ' '
        };
        ann.push(a);
        proof {
            assert(annotation_of(rev1@, rev2@).take(k + 1) =~= annotation_of(rev1@, rev2@).take(
                k as int,
            ).push(ann_char(rev1@[k as int], rev2@[k as int])));
        }
        k = k + 1;
    }
    proof {
        assert(ann@ =~= annotation_of(rev1@, rev2@));
    }

    let out1 = crate::text::chars_to_string(&rev1);
    let out2 = crate::text::chars_to_string(&rev2);
    let out3 = crate::text::chars_to_string(&ann);
    (out1, out2, out3)
}

proof fn lemma_non_gaps_singleton(x: char)
    ensures
        x != '-' ==> non_gaps(seq![x]) == seq![x],
        x == '-' ==> non_gaps(seq![x]) == Seq::<char>::empty(),
{
    assert(non_gaps(Seq::<char>::empty()) == Seq::<char>::empty());
    assert(seq![x].drop_first() =~= Seq::<char>::empty());
    assert(seq![x].len() == 1 && seq![x][0] == x);
    if x != '-' {
        assert(non_gaps(seq![x]) == seq![x] + Seq::<char>::empty());
        assert(seq![x] + Seq::<char>::empty() =~= seq![x]);
    }
}

proof fn lemma_non_gaps_reverse(s: Seq<char>)
    ensures
        non_gaps(s.reverse()) == non_gaps(s).reverse(),
    decreases s.len(),
{
    if s.len() == 0 {
        assert(s.reverse() =~= s);
        assert(non_gaps(s).reverse() =~= non_gaps(s));
    } else {
        let d = s.drop_last();
        let x = s.last();
        lemma_non_gaps_reverse(d);
        lemma_non_gaps_singleton(x);
        assert(s.reverse() =~= seq![x] + d.reverse());
        lemma_non_gaps_add(seq![x], d.reverse());
        assert(s =~= d + seq![x]);
        lemma_non_gaps_add(d, seq![x]);
        if x != '-' {
            assert((non_gaps(d) + seq![x]).reverse() =~= seq![x] + non_gaps(d).reverse());
        } else {
            assert(non_gaps(d).reverse() =~= Seq::<char>::empty() + non_gaps(d).reverse());
            assert(non_gaps(d) + Seq::<char>::empty() =~= non_gaps(d));
        }
    }
}

/// The non-gap characters of the two rows a backward walk emits are
/// contiguous stretches of the two inputs read backward from `(i, j)` — the
/// walk introduces no symbol of its own. Stated for inputs that do not use
/// the gap marker as a symbol.
proof fn lemma_tb_chars(inp: AlignInput, i: int, j: int, st: int)
    requires
        0 <= i <= inp.s1.len(),
        0 <= j <= inp.s2.len(),
        forall|t: int| 0 <= t < inp.s1.len() ==> (#[trigger] inp.s1[t]) != '-',
        forall|t: int| 0 <= t < inp.s2.len() ==> (#[trigger] inp.s2[t]) != '-',
    ensures
        exists|lo1: int, lo2: int|
            0 <= lo1 <= i && 0 <= lo2 <= j && non_gaps(firsts(tb_pairs(inp, i, j, st)))
                == inp.s1.subrange(lo1, i).reverse() && non_gaps(seconds(tb_pairs(inp, i, j, st)))
                == inp.s2.subrange(lo2, j).reverse(),
    decreases i + j,
{
    let ps = tb_pairs(inp, i, j, st);
    let stopped = i <= 0 || j <= 0 || (st == 0 && trace_val(inp, i, j) == 0) || (st == 1
        && ix_val(inp, i, j) == 0) || (st != 0 && st != 1 && iy_val(inp, i, j) == 0);
    if stopped {
        assert(ps =~= Seq::<(char, char)>::empty());
        assert(firsts(ps) =~= Seq::<char>::empty());
        assert(seconds(ps) =~= Seq::<char>::empty());
        assert(non_gaps(firsts(ps)) =~= Seq::<char>::empty());
        assert(non_gaps(seconds(ps)) =~= Seq::<char>::empty());
        assert(inp.s1.subrange(i, i).reverse() =~= Seq::<char>::empty());
        assert(inp.s2.subrange(j, j).reverse() =~= Seq::<char>::empty());
        assert(0 <= i <= i && 0 <= j <= j && non_gaps(firsts(tb_pairs(inp, i, j, st)))
            == inp.s1.subrange(i, i).reverse() && non_gaps(seconds(tb_pairs(inp, i, j, st)))
            == inp.s2.subrange(j, j).reverse());
    } else {
        let p: (char, char) = if st == 0 {
            (inp.s1[i - 1], inp.s2[j - 1])
        } else if st == 1 {
            (inp.s1[i - 1], '-')
        } else {
            ('-', inp.s2[j - 1])
        };
        let i2: int = if st == 0 || st == 1 {
            i - 1
        } else {
            i
        };
        let j2: int = if st == 1 {
            j
        } else {
            j - 1
        };
        let st2: int = if st == 0 {
            next_state(trace_val(inp, i, j))
        } else if st == 1 {
            if i - 1 > 0 && m_val(inp, i - 1, j) - inp.go - inp.ge >= ix_val(inp, i - 1, j)
                - inp.ge {
                0
            } else {
                1
            }
        } else {
            if j - 1 > 0 && m_val(inp, i, j - 1) - inp.go - inp.ge >= iy_val(inp, i, j - 1)
                - inp.ge {
                0
            } else {
                2
            }
        };
        let rest = tb_pairs(inp, i2, j2, st2);
        assert(ps == seq![p] + rest);
        lemma_tb_chars(inp, i2, j2, st2);
        let (lo1, lo2) = choose|lo1: int, lo2: int|
            0 <= lo1 <= i2 && 0 <= lo2 <= j2 && non_gaps(firsts(tb_pairs(inp, i2, j2, st2)))
                == inp.s1.subrange(lo1, i2).reverse() && non_gaps(
                seconds(tb_pairs(inp, i2, j2, st2)),
            ) == inp.s2.subrange(lo2, j2).reverse();
        assert(firsts(ps) =~= seq![p.0] + firsts(rest));
        assert(seconds(ps) =~= seq![p.1] + seconds(rest));
        lemma_non_gaps_add(seq![p.0], firsts(rest));
        lemma_non_gaps_add(seq![p.1], seconds(rest));
        lemma_non_gaps_singleton(p.0);
        lemma_non_gaps_singleton(p.1);
        if st == 0 || st == 1 {
            // the first row consumes a genuine symbol
            assert(p.0 == inp.s1[i - 1] && p.0 != '-');
            assert(seq![p.0] + inp.s1.subrange(lo1, i2).reverse() =~= inp.s1.subrange(
                lo1,
                i,
            ).reverse());
        } else {
            assert(p.0 == '-');
            assert(Seq::<char>::empty() + inp.s1.subrange(lo1, i2).reverse() =~= inp.s1.subrange(
                lo1,
                i,
            ).reverse());
        }
        if st != 1 {
            assert(p.1 == inp.s2[j - 1] && p.1 != '-');
            assert(seq![p.1] + inp.s2.subrange(lo2, j2).reverse() =~= inp.s2.subrange(
                lo2,
                j,
            ).reverse());
        } else {
            assert(p.1 == '-');
            assert(Seq::<char>::empty() + inp.s2.subrange(lo2, j2).reverse() =~= inp.s2.subrange(
                lo2,
                j,
            ).reverse());
        }
        assert(0 <= lo1 <= i && 0 <= lo2 <= j && non_gaps(firsts(tb_pairs(inp, i, j, st)))
            == inp.s1.subrange(lo1, i).reverse() && non_gaps(seconds(tb_pairs(inp, i, j, st)))
            == inp.s2.subrange(lo2, j).reverse());
    }
}

/// No spurious symbols: every non-gap character of the two reported rows is
/// a symbol of the corresponding input sequence, and in order — the non-gap
/// part of each row is a contiguous stretch of its input ending at the best
/// cell's coordinate. Stated for inputs that do not use the gap marker `-`
/// as a symbol of their own.
pub proof fn lemma_aligned_from_inputs(inp: AlignInput)
    requires
        forall|t: int| 0 <= t < inp.s1.len() ==> (#[trigger] inp.s1[t]) != '-',
        forall|t: int| 0 <= t < inp.s2.len() ==> (#[trigger] inp.s2[t]) != '-',
    ensures
        exists|lo1: int, lo2: int|
            0 <= lo1 <= spec_best(inp).1 && 0 <= lo2 <= spec_best(inp).2 && non_gaps(
                spec_aligned1(inp),
            ) == inp.s1.subrange(lo1, spec_best(inp).1) && non_gaps(spec_aligned2(inp))
                == inp.s2.subrange(lo2, spec_best(inp).2),
{
    lemma_best_range(inp, inp.s1.len() as int, inp.s2.len() as int);
    let b = spec_best(inp);
    lemma_tb_chars(inp, b.1, b.2, 0);
    let ps = tb_pairs(inp, b.1, b.2, 0);
    let (lo1, lo2) = choose|lo1: int, lo2: int|
        0 <= lo1 <= b.1 && 0 <= lo2 <= b.2 && non_gaps(firsts(tb_pairs(inp, b.1, b.2, 0)))
            == inp.s1.subrange(lo1, b.1).reverse() && non_gaps(seconds(tb_pairs(inp, b.1, b.2, 0)))
            == inp.s2.subrange(lo2, b.2).reverse();
    assert(spec_aligned1(inp) =~= firsts(ps).reverse());
    assert(spec_aligned2(inp) =~= seconds(ps).reverse());
    lemma_non_gaps_reverse(firsts(ps));
    lemma_non_gaps_reverse(seconds(ps));
    assert(inp.s1.subrange(lo1, b.1).reverse().reverse() =~= inp.s1.subrange(lo1, b.1));
    assert(inp.s2.subrange(lo2, b.2).reverse().reverse() =~= inp.s2.subrange(lo2, b.2));
    assert(0 <= lo1 <= spec_best(inp).1 && 0 <= lo2 <= spec_best(inp).2 && non_gaps(
        spec_aligned1(inp),
    ) == inp.s1.subrange(lo1, spec_best(inp).1) && non_gaps(spec_aligned2(inp))
        == inp.s2.subrange(lo2, spec_best(inp).2));
}

} // verus!
