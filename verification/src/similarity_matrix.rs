//! The substitution matrix: a symmetric table of pairwise symbol scores,
//! queried by the alignment engine once per cell of the dynamic-programming
//! grid.

use vstd::prelude::*;
use crate::text::{
    is_space_char, lemma_run_len_bounds, parse_i32_spec, run_len, skip_spaces, tokens_of,
};

verus! {

/// A substitution matrix. The entries are kept in insertion order; the view
/// is the map they denote, a later entry overriding an earlier one with the
/// same symbol pair.
#[derive(Debug)]
pub struct SimilarityMatrix {
    entries: Vec<(char, char, i32)>,
}

/// The map denoted by a sequence of `(row symbol, column symbol, score)`
/// entries: each entry overrides earlier ones with the same ordered pair.
pub open spec fn pair_map(s: Seq<(char, char, i32)>) -> Map<(char, char), i32>
    decreases s.len(),
{
    if s.len() == 0 {
        Map::empty()
    } else {
        pair_map(s.drop_last()).insert((s.last().0, s.last().1), s.last().2)
    }
}

impl View for SimilarityMatrix {
    type V = Map<(char, char), i32>;

    closed spec fn view(&self) -> Map<(char, char), i32> {
        pair_map(self.entries@)
    }
}

/// A stored score for the ordered pair `(a, b)`, resolved against either
/// orientation: the direct one first, the swapped one as fallback.
pub open spec fn spec_get(m: Map<(char, char), i32>, a: char, b: char) -> Option<i32> {
    if m.contains_key((a, b)) {
        Some(m[(a, b)])
    } else if m.contains_key((b, a)) {
        Some(m[(b, a)])
    } else {
        None
    }
}

/// The score the alignment engine uses: a stored score for the pair in either
/// orientation, or 0 when the pair is absent from the table.
pub open spec fn score_or_zero(m: Map<(char, char), i32>, a: char, b: char) -> int {
    match spec_get(m, a, b) {
        Some(v) => v as int,
        None => 0,
    }
}

/// A table is symmetric when any pair stored in both orientations carries the
/// same score in both. The loader produces such a table from any matrix file
/// whose data rows are themselves symmetric.
pub open spec fn symmetric(m: Map<(char, char), i32>) -> bool {
    forall|a: char, b: char|
        m.contains_key((a, b)) && m.contains_key((b, a)) ==> m[(a, b)] == m[(b, a)]
}

proof fn lemma_pair_map_found(s: Seq<(char, char, i32)>, a: char, b: char, i: int)
    requires
        0 <= i < s.len(),
        s[i].0 == a && s[i].1 == b,
        forall|t: int| i < t < s.len() ==> !(s[t].0 == a && s[t].1 == b),
    ensures
        pair_map(s).contains_key((a, b)),
        pair_map(s)[(a, b)] == s[i].2,
    decreases s.len(),
{
    if i == s.len() - 1 {
    } else {
        lemma_pair_map_found(s.drop_last(), a, b, i);
    }
}

proof fn lemma_pair_map_absent(s: Seq<(char, char, i32)>, a: char, b: char)
    requires
        forall|t: int| 0 <= t < s.len() ==> !(s[t].0 == a && s[t].1 == b),
    ensures
        !pair_map(s).contains_key((a, b)),
    decreases s.len(),
{
    if s.len() > 0 {
        lemma_pair_map_absent(s.drop_last(), a, b);
    }
}

impl SimilarityMatrix {
    /// An empty table, holding no symbol pair.
    fn new() -> (r: SimilarityMatrix)
        ensures
            r@ == Map::<(char, char), i32>::empty(),
    {
        SimilarityMatrix { entries: Vec::new() }
    }

    /// Records the score of the ordered pair `(a, b)`, overriding any earlier
    /// score of that ordered pair.
    fn set_score(&mut self, a: char, b: char, score: i32)
        ensures
            final(self)@ == old(self)@.insert((a, b), score),
    {
        self.entries.push((a, b, score));
        proof {
            assert(self.entries@.drop_last() =~= old(self).entries@);
        }
    }

    /// Looks for the score stored under the ordered pair `(a, b)` only.
    fn get_directed(&self, a: char, b: char) -> (r: Option<i32>)
        ensures
            r is Some <==> self@.contains_key((a, b)),
            r is Some ==> r->0 == self@[(a, b)],
    {
        let n = self.entries.len();
        let mut i: usize = n;
        while i > 0
            invariant
                i <= n,
                n == self.entries@.len(),
                forall|t: int| i <= t < n ==> !((#[trigger] self.entries@[t]).0 == a
                    && self.entries@[t].1 == b),
            decreases i,
        {
            i = i - 1;
            let e = self.entries[i];
            if e.0 == a && e.1 == b {
                proof {
                    lemma_pair_map_found(self.entries@, a, b, i as int);
                }
                return Some(e.2);
            }
        }
        proof {
            lemma_pair_map_absent(self.entries@, a, b);
        }
        None
    }

    /// A non-negative magnitude bound covering every stored score; with it a
    /// caller can discharge the no-overflow precondition of the alignment
    /// engine before calling it.
    pub fn score_bound(&self) -> (r: i64)
        ensures
            0 <= r,
            entries_within(self@, r as int),
    {
        let mut r: i64 = 0;
        let mut i: usize = 0;
        while i < self.entries.len()
            invariant
                i <= self.entries@.len(),
                0 <= r,
                forall|t: int|
                    0 <= t < i ==> -r <= (#[trigger] self.entries@[t]).2 as int <= r,
            decreases self.entries@.len() - i,
        {
            let v = self.entries[i].2;
            let a: i64 = if v >= 0 {
                v as i64
            } else {
                -(v as i64)
            };
            if a > r {
                r = a;
            }
            i = i + 1;
        }
        proof {
            lemma_pair_map_bounded(self.entries@, r as int);
        }
        r
    }

    /// The score of the symbol pair `{a, b}`: the table is queried in both
    /// orientations, so symmetry of a fully stored table is visible to
    /// callers; `None` when the pair is absent in both orientations.
    pub fn get_score(&self, a: char, b: char) -> (r: Option<i32>)
        ensures
            r == spec_get(self@, a, b),
    {
        let direct = self.get_directed(a, b);
        match direct {
            Some(v) => Some(v),
            None => self.get_directed(b, a),
        }
    }
}

/// A matrix definition line that is skipped: blank but for whitespace, or a
/// comment whose first non-space character is `#`.
pub open spec fn is_ignored_line(s: Seq<char>) -> bool {
    skip_spaces(s).len() == 0 || skip_spaces(s)[0] == '#'
}

/// The alphabet a header line declares: the first character of each token,
/// in column order.
pub open spec fn header_symbols(s: Seq<char>) -> Seq<char> {
    tokens_of(s).map_values(|t: Seq<char>| t[0])
}

/// The scores of a data row: every token parsed as a 32-bit integer, the row
/// rejected if any token fails to parse.
pub open spec fn parse_row_values(toks: Seq<Seq<char>>) -> Option<Seq<i32>>
    decreases toks.len(),
{
    if toks.len() == 0 {
        Some(Seq::empty())
    } else {
        match parse_row_values(toks.drop_last()) {
            None => None,
            Some(vs) => match parse_i32_spec(toks.last()) {
                None => None,
                Some(v) => Some(vs.push(v)),
            },
        }
    }
}

/// The table after recording one data row: column `idx` onward of the
/// alphabet paired with the row symbol, each mapped to its score.
pub open spec fn row_scores(
    acc: Map<(char, char), i32>,
    rc: char,
    alphabet: Seq<char>,
    vals: Seq<i32>,
    idx: int,
) -> Map<(char, char), i32>
    decreases alphabet.len() - idx,
{
    if idx < 0 || idx >= alphabet.len() {
        acc
    } else {
        row_scores(acc.insert((rc, alphabet[idx]), vals[idx]), rc, alphabet, vals, idx + 1)
    }
}

/// The state-machine reading of a matrix definition from line `k` on:
/// ignored lines are skipped, the first substantial line is the header, each
/// later one a data row. A row whose scores do not all parse, or that carries
/// fewer scores than the alphabet has symbols, stops the read with its 1-based
/// line number and its text.
pub open spec fn parse_from(
    lines: Seq<Seq<char>>,
    k: int,
    header_found: bool,
    alphabet: Seq<char>,
    acc: Map<(char, char), i32>,
) -> Result<Map<(char, char), i32>, (int, Seq<char>)>
    decreases lines.len() - k,
{
    if k < 0 || k >= lines.len() {
        Ok(acc)
    } else {
        let line = lines[k];
        if is_ignored_line(line) {
            parse_from(lines, k + 1, header_found, alphabet, acc)
        } else if !header_found {
            parse_from(lines, k + 1, true, header_symbols(line), acc)
        } else {
            let toks = tokens_of(line);
            match parse_row_values(toks.drop_first()) {
                None => Err((k + 1, line)),
                Some(vals) => if vals.len() < alphabet.len() {
                    Err((k + 1, line))
                } else {
                    parse_from(
                        lines,
                        k + 1,
                        true,
                        alphabet,
                        row_scores(acc, toks[0][0], alphabet, vals, 0),
                    )
                },
            }
        }
    }
}

/// What loading a matrix definition yields: the score table, or the 1-based
/// number and text of the first bad data row.
pub open spec fn load_spec(lines: Seq<Seq<char>>) -> Result<
    Map<(char, char), i32>,
    (int, Seq<char>),
> {
    parse_from(lines, 0, false, Seq::empty(), Map::empty())
}

/// Every stored score of the table lies within magnitude `s`.
pub open spec fn entries_within(m: Map<(char, char), i32>, s: int) -> bool {
    forall|k: (char, char)| #[trigger] m.contains_key(k) ==> -s <= m[k] <= s
}

proof fn lemma_pair_map_bounded(s: Seq<(char, char, i32)>, r: int)
    requires
        forall|t: int| 0 <= t < s.len() ==> -r <= (#[trigger] s[t]).2 <= r,
    ensures
        entries_within(pair_map(s), r),
    decreases s.len(),
{
    if s.len() > 0 {
        lemma_pair_map_bounded(s.drop_last(), r);
    }
}

/// A symmetric table answers a pair lookup identically in either order: for
/// any symbols `a` and `b`, the score resolved for `(a, b)` equals the score
/// resolved for `(b, a)`.
pub proof fn lemma_get_score_symmetric(m: Map<(char, char), i32>, a: char, b: char)
    requires
        symmetric(m),
    ensures
        spec_get(m, a, b) == spec_get(m, b, a),
{
}

proof fn lemma_tokens_skip_spaces(s: Seq<char>)
    ensures
        tokens_of(s) == tokens_of(skip_spaces(s)),
    decreases s.len(),
{
    if s.len() > 0 && is_space_char(s[0]) {
        lemma_tokens_skip_spaces(s.drop_first());
    }
}

/// A line is ignored exactly when it has no token at all or its first token
/// starts with `#`.
proof fn lemma_ignored_tokens(s: Seq<char>)
    ensures
        is_ignored_line(s) <==> (tokens_of(s).len() == 0 || tokens_of(s)[0][0] == '#'),
    decreases s.len(),
{
    if s.len() == 0 {
    } else if is_space_char(s[0]) {
        lemma_ignored_tokens(s.drop_first());
    } else {
        lemma_run_len_bounds(s);
        lemma_run_len_bounds(s.drop_first());
        assert(tokens_of(s)[0] == s.take(run_len(s)));
        assert(s.take(run_len(s))[0] == s[0]);
    }
}

/// A row with one unparsable token yields no scores, wherever it sits.
proof fn lemma_parse_row_values_none(ts: Seq<Seq<char>>, p: int)
    requires
        0 <= p < ts.len(),
        parse_i32_spec(ts[p]) is None,
    ensures
        parse_row_values(ts) is None,
    decreases ts.len(),
{
    if p < ts.len() - 1 {
        lemma_parse_row_values_none(ts.drop_last(), p);
    }
}

/// The load failed on a data row: its 1-based line number and its raw text.
#[derive(Debug)]
pub struct ParseError {
    pub line: usize,
    pub text: String,
}

/// Builds the score table from the lines of a matrix definition, exactly as
/// `load_spec` states: blank and `#` lines are skipped, the first substantial
/// line names the alphabet by the first character of each token, and every
/// later line scores one row symbol against the alphabet in column order. A
/// data row with an unparsable score token, or with fewer score tokens than
/// the alphabet has symbols, fails with that line's number and text.
pub fn create_similarity_matrix(lines: &Vec<String>) -> (r: Result<SimilarityMatrix, ParseError>)
    ensures
        ({
            let lv = lines.deep_view();
            match r {
                Ok(mat) => load_spec(lv) is Ok && mat@ == load_spec(lv)->Ok_0,
                Err(e) => load_spec(lv) is Err && e.line as int == load_spec(lv)->Err_0.0
                    && e.text@ == load_spec(lv)->Err_0.1,
            }
        }),
{
    let ghost lv = lines.deep_view();
    let mut matrix = SimilarityMatrix::new();
    let mut alphabet: Vec<char> = Vec::new();
    let mut header_found = false;
    let mut k: usize = 0;
    proof {
        assert(lv.len() == lines@.len());
        assert forall|t: int| 0 <= t < lv.len() implies lv[t] == lines@[t]@ by {}
    }
    while k < lines.len()
        invariant
            lv == lines.deep_view(),
            lv.len() == lines@.len(),
            forall|t: int| 0 <= t < lv.len() ==> lv[t] == lines@[t]@,
            k <= lines@.len(),
            load_spec(lv) == parse_from(lv, k as int, header_found, alphabet@, matrix@),
        decreases lines@.len() - k,
    {
        let ghost hf0 = header_found;
        let ghost alpha0 = alphabet@;
        let ghost m0 = matrix@;
        let chars = crate::text::to_char_vec(lines[k].as_str());
        proof {
            assert(chars@ == lv[k as int]);
        }
        let toks = crate::text::tokenize(&chars);
        let ignored = if toks.len() == 0 {
            true
        } else {
            let t0 = &toks[0];
            t0[0] == '#'
        };
        proof {
            lemma_ignored_tokens(chars@);
            assert(ignored == is_ignored_line(chars@));
        }
        if ignored {
        } else if !header_found {
            let mut alpha_new: Vec<char> = Vec::new();
            let mut q: usize = 0;
            while q < toks.len()
                invariant
                    q <= toks@.len(),
                    alpha_new@.len() == q,
                    toks@.len() == tokens_of(chars@).len(),
                    forall|t: int|
                        0 <= t < toks@.len() ==> (#[trigger] toks@[t])@ == tokens_of(chars@)[t],
                    forall|t: int| 0 <= t < toks@.len() ==> (#[trigger] toks@[t])@.len() > 0,
                    forall|t: int| 0 <= t < q ==> alpha_new@[t] == header_symbols(chars@)[t],
                decreases toks@.len() - q,
            {
                let tk = &toks[q];
                alpha_new.push(tk[0]);
                q = q + 1;
            }
            proof {
                assert(alpha_new@ =~= header_symbols(chars@));
            }
            alphabet = alpha_new;
            header_found = true;
        } else {
            let t0 = &toks[0];
            let row_char = t0[0];
            let ghost ts = tokens_of(chars@).drop_first();
            let mut vals: Vec<i32> = Vec::new();
            let mut vi: usize = 1;
            let mut bad = false;
            while vi < toks.len()
                invariant_except_break
                    1 <= vi <= toks@.len(),
                    !bad,
                    ts == tokens_of(chars@).drop_first(),
                    toks@.len() == tokens_of(chars@).len(),
                    forall|t: int|
                        0 <= t < toks@.len() ==> (#[trigger] toks@[t])@ == tokens_of(chars@)[t],
                    parse_row_values(ts.take(vi - 1)) == Some(vals@),
                ensures
                    bad ==> parse_row_values(ts) is None,
                    !bad ==> vi == toks@.len() && parse_row_values(ts.take(vi - 1)) == Some(
                        vals@,
                    ),
                decreases toks@.len() - vi,
            {
                let parsed = crate::text::parse_i32(&toks[vi]);
                match parsed {
                    Some(v) => {
                        vals.push(v);
                        proof {
                            assert(ts.take(vi as int).drop_last() =~= ts.take(vi - 1));
                            assert(ts.take(vi as int).last() == ts[vi - 1]);
                        }
                        vi = vi + 1;
                    },
                    None => {
                        proof {
                            lemma_parse_row_values_none(ts, vi - 1);
                        }
                        bad = true;
                        break ;
                    },
                }
            }
            proof {
                if !bad {
                    assert(ts.take(toks@.len() - 1) =~= ts);
                }
            }
            if bad || vals.len() < alphabet.len() {
                proof {
                    assert(parse_from(lv, k as int, hf0, alpha0, m0) == Err::<
                        Map<(char, char), i32>,
                        (int, Seq<char>),
                    >((k + 1, chars@)));
                }
                return Err(ParseError { line: k + 1, text: lines[k].clone() });
            }
            let ghost acc0 = matrix@;
            let mut c: usize = 0;
            while c < alphabet.len()
                invariant
                    c <= alphabet@.len(),
                    vals@.len() >= alphabet@.len(),
                    row_scores(acc0, row_char, alphabet@, vals@, 0) == row_scores(
                        matrix@,
                        row_char,
                        alphabet@,
                        vals@,
                        c as int,
                    ),
                decreases alphabet@.len() - c,
            {
                matrix.set_score(row_char, alphabet[c], vals[c]);
                c = c + 1;
            }
            proof {
                assert(matrix@ == row_scores(acc0, row_char, alphabet@, vals@, 0));
                assert(row_char == tokens_of(chars@)[0][0]);
            }
        }
        proof {
            assert(parse_from(lv, k as int, hf0, alpha0, m0) == parse_from(
                lv,
                k + 1,
                header_found,
                alphabet@,
                matrix@,
            ));
        }
        k = k + 1;
    }
    proof {
        assert(parse_from(lv, k as int, header_found, alphabet@, matrix@) == Ok::<
            Map<(char, char), i32>,
            (int, Seq<char>),
        >(matrix@));
    }
    Ok(matrix)
}

} // verus!
