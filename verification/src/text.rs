//! Character and token utilities shared by the matrix loader: whitespace
//! classification, tokenisation of a line, and integer parsing, each with a
//! specification that pins the result down.

use vstd::prelude::*;
use vstd::string::StrSliceExecFns;

verus! {

/// One character of ASCII whitespace: the separators the matrix format uses.
pub open spec fn is_space_char(c: char) -> bool {
    c == ' ' || c == '\t' || c == '\r' || c == '\n' || c == '\x0b' || c == '\x0c'
}

/// Runtime test matching `is_space_char`.
pub fn is_space(c: char) -> (r: bool)
    ensures
        r == is_space_char(c),
{
    c == ' ' || c == '\t' || c == '\r' || c == '\n' || c == '\x0b' || c == '\x0c'
}

/// Relies on `String::push`: appends exactly one character at the end.
#[verifier::external_body]
pub fn push_char(s: &mut String, c: char)
    ensures
        final(s)@ == old(s)@.push(c),
{
    s.push(c)
}

/// Collects the characters of a string slice into a vector.
pub fn to_char_vec(s: &str) -> (r: Vec<char>)
    ensures
        r@ == s@,
{
    let n = s.unicode_len();
    let mut r: Vec<char> = Vec::new();
    let mut i: usize = 0;
    while i < n
        invariant
            n == s@.len(),
            i <= n,
            r@ == s@.take(i as int),
        decreases n - i,
    {
        let c = s.get_char(i);
        r.push(c);
        proof {
            assert(s@.take(i + 1) =~= s@.take(i as int).push(s@[i as int]));
        }
        i = i + 1;
    }
    proof {
        assert(s@.take(n as int) =~= s@);
    }
    r
}

/// Builds a string whose characters are exactly those of `v`.
pub fn chars_to_string(v: &Vec<char>) -> (r: String)
    ensures
        r@ == v@,
{
    let mut r = String::new();
    let mut i: usize = 0;
    while i < v.len()
        invariant
            i <= v@.len(),
            r@ == v@.take(i as int),
        decreases v@.len() - i,
    {
        push_char(&mut r, v[i]);
        proof {
            assert(v@.take(i + 1) =~= v@.take(i as int).push(v@[i as int]));
        }
        i = i + 1;
    }
    proof {
        assert(v@.take(v@.len() as int) =~= v@);
    }
    r
}

/// The line with its leading whitespace removed.
pub open spec fn skip_spaces(s: Seq<char>) -> Seq<char>
    decreases s.len(),
{
    if s.len() > 0 && is_space_char(s[0]) {
        skip_spaces(s.drop_first())
    } else {
        s
    }
}

/// Length of the leading run of non-space characters.
pub open spec fn run_len(s: Seq<char>) -> int
    decreases s.len(),
{
    if s.len() == 0 || is_space_char(s[0]) {
        0
    } else {
        1 + run_len(s.drop_first())
    }
}

/// The leading non-space run is never longer than the line.
pub proof fn lemma_run_len_bounds(s: Seq<char>)
    ensures
        0 <= run_len(s) <= s.len(),
    decreases s.len(),
{
    if s.len() > 0 && !is_space_char(s[0]) {
        lemma_run_len_bounds(s.drop_first());
    }
}

/// The whitespace-separated tokens of a line, in order; every token is a
/// maximal run of non-space characters, so none is empty.
pub open spec fn tokens_of(s: Seq<char>) -> Seq<Seq<char>>
    decreases s.len(),
    via tokens_of_dec
{
    if s.len() == 0 {
        Seq::empty()
    } else if is_space_char(s[0]) {
        tokens_of(s.drop_first())
    } else {
        seq![s.take(run_len(s))] + tokens_of(s.skip(run_len(s)))
    }
}

#[via_fn]
proof fn tokens_of_dec(s: Seq<char>) {
    lemma_run_len_bounds(s);
    if s.len() > 0 && !is_space_char(s[0]) {
        lemma_run_len_bounds(s.drop_first());
    }
}

/// The leading run of non-space characters of `s.skip(a)` ends exactly at
/// `b` when everything in between is non-space and `b` sits at a space or at
/// the end.
proof fn lemma_run_len_at(s: Seq<char>, a: int, b: int)
    requires
        0 <= a <= b <= s.len(),
        forall|t: int| a <= t < b ==> !is_space_char(#[trigger] s[t]),
        b == s.len() || is_space_char(s[b]),
    ensures
        run_len(s.skip(a)) == b - a,
    decreases b - a,
{
    if a < b {
        assert(s.skip(a).drop_first() =~= s.skip(a + 1));
        lemma_run_len_at(s, a + 1, b);
    }
}

/// Splits a line into its whitespace-separated tokens.
pub fn tokenize(line: &Vec<char>) -> (r: Vec<Vec<char>>)
    ensures
        r@.len() == tokens_of(line@).len(),
        forall|k: int| 0 <= k < r@.len() ==> (#[trigger] r@[k])@ == tokens_of(line@)[k],
        forall|k: int| 0 <= k < r@.len() ==> (#[trigger] r@[k])@.len() > 0,
{
    let ghost full = tokens_of(line@);
    let mut r: Vec<Vec<char>> = Vec::new();
    let mut pos: usize = 0;
    proof {
        assert(line@.skip(0) =~= line@);
        assert(r@.map_values(|v: Vec<char>| v@) + tokens_of(line@) =~= tokens_of(line@));
    }
    while pos < line.len()
        invariant
            pos <= line@.len(),
            full == tokens_of(line@),
            full == r@.map_values(|v: Vec<char>| v@) + tokens_of(line@.skip(pos as int)),
            forall|k: int| 0 <= k < r@.len() ==> (#[trigger] r@[k])@.len() > 0,
        decreases line@.len() - pos,
    {
        let c = line[pos];
        if is_space(c) {
            proof {
                assert(line@.skip(pos as int).drop_first() =~= line@.skip(pos + 1));
            }
            pos = pos + 1;
        } else {
            let ghost start_g = pos as int;
            let start = pos;
            let mut tok: Vec<char> = Vec::new();
            tok.push(c);
            pos = pos + 1;
            while pos < line.len()
                invariant_except_break
                    start_g == start as int,
                    start < pos <= line@.len(),
                    tok@ == line@.subrange(start_g, pos as int),
                    forall|t: int| start_g <= t < pos ==> !is_space_char(#[trigger] line@[t]),
                ensures
                    start_g == start as int,
                    start < pos <= line@.len(),
                    tok@ == line@.subrange(start_g, pos as int),
                    forall|t: int| start_g <= t < pos ==> !is_space_char(#[trigger] line@[t]),
                    pos == line@.len() || is_space_char(line@[pos as int]),
                decreases line@.len() - pos,
            {
                let c2 = line[pos];
                if is_space(c2) {
                    break;
                }
                tok.push(c2);
                proof {
                    assert(line@.subrange(start_g, pos + 1) =~= line@.subrange(
                        start_g,
                        pos as int,
                    ).push(line@[pos as int]));
                }
                pos = pos + 1;
            }
            proof {
                lemma_run_len_at(line@, start_g, pos as int);
                let t = line@.skip(start_g);
                assert(t.take(pos - start_g) =~= line@.subrange(start_g, pos as int));
                assert(t.skip(pos - start_g) =~= line@.skip(pos as int));
                assert(tokens_of(t) == seq![tok@] + tokens_of(line@.skip(pos as int)));
                assert((r@.push(tok)).map_values(|v: Vec<char>| v@) =~= r@.map_values(
                    |v: Vec<char>| v@,
                ).push(tok@));
                assert(r@.map_values(|v: Vec<char>| v@) + (seq![tok@] + tokens_of(
                    line@.skip(pos as int),
                )) =~= r@.map_values(|v: Vec<char>| v@).push(tok@) + tokens_of(
                    line@.skip(pos as int),
                ));
            }
            r.push(tok);
        }
    }
    proof {
        assert(line@.skip(line@.len() as int) =~= Seq::<char>::empty());
        assert(full =~= r@.map_values(|v: Vec<char>| v@));
    }
    r
}

/// A decimal digit.
pub open spec fn is_digit(c: char) -> bool {
    48 <= c as int <= 57
}

/// The numeric value of a decimal digit.
pub open spec fn digit_val(c: char) -> int {
    c as int - 48
}

/// Every character of `s` is a decimal digit.
pub open spec fn all_digits(s: Seq<char>) -> bool {
    forall|k: int| 0 <= k < s.len() ==> is_digit(#[trigger] s[k])
}

/// The value of a digit string read in base 10.
pub open spec fn digits_val(s: Seq<char>) -> int
    decreases s.len(),
{
    if s.len() == 0 {
        0
    } else {
        digits_val(s.drop_last()) * 10 + digit_val(s.last())
    }
}

/// The token after an optional leading sign.
pub open spec fn int_body(t: Seq<char>) -> Seq<char> {
    if t.len() > 0 && (t[0] == '+' || t[0] == '-') {
        t.drop_first()
    } else {
        t
    }
}

/// The sign a leading `-` denotes.
pub open spec fn int_sign(t: Seq<char>) -> int {
    if t.len() > 0 && t[0] == '-' {
        -1
    } else {
        1
    }
}

/// What parsing a token as a 32-bit integer yields: an optional sign followed
/// by at least one digit, the signed value within 32-bit range; anything else
/// is rejected.
pub open spec fn parse_i32_spec(t: Seq<char>) -> Option<i32> {
    let body = int_body(t);
    if body.len() == 0 || !all_digits(body) {
        None
    } else {
        let v = int_sign(t) * digits_val(body);
        if i32::MIN <= v <= i32::MAX {
            Some(v as i32)
        } else {
            None
        }
    }
}

proof fn lemma_digits_val_nonneg(s: Seq<char>)
    requires
        all_digits(s),
    ensures
        digits_val(s) >= 0,
    decreases s.len(),
{
    if s.len() > 0 {
        assert(all_digits(s.drop_last()));
        lemma_digits_val_nonneg(s.drop_last());
    }
}

/// Reading more digits can only grow the non-negative value.
proof fn lemma_digits_val_take(s: Seq<char>, p: int)
    requires
        all_digits(s),
        0 <= p <= s.len(),
    ensures
        digits_val(s.take(p)) <= digits_val(s),
    decreases s.len() - p,
{
    if p == s.len() {
        assert(s.take(p) =~= s);
    } else {
        assert(all_digits(s.take(p + 1)));
        assert(s.take(p + 1).drop_last() =~= s.take(p));
        assert(s.take(p + 1).last() == s[p]);
        lemma_digits_val_nonneg(s.take(p));
        lemma_digits_val_take(s, p + 1);
    }
}

/// Parses a token as a 32-bit integer, exactly as `parse_i32_spec` states.
pub fn parse_i32(t: &Vec<char>) -> (r: Option<i32>)
    ensures
        r == parse_i32_spec(t@),
{
    let n = t.len();
    if n == 0 {
        return None;
    }
    let first = t[0];
    let neg = first == '-';
    let start: usize = if first == '-' || first == '+' {
        1
    } else {
        0
    };
    proof {
        assert(int_body(t@) =~= t@.subrange(start as int, n as int));
    }
    if n == start {
        return None;
    }
    let mut acc: i64 = 0;
    let mut k = start;
    while k < n
        invariant
            n == t@.len(),
            start <= k <= n,
            start <= 1,
            int_body(t@) =~= t@.subrange(start as int, n as int),
            neg == (int_sign(t@) == -1),
            forall|p: int| start <= p < k ==> is_digit(#[trigger] t@[p]),
            acc == digits_val(t@.subrange(start as int, k as int)),
            0 <= acc <= 0x8000_0000i64,
        decreases n - k,
    {
        let c = t[k];
        let d: u32 = if c == '0' {
            0
        } else if c == '1' {
            1
        } else if c == '2' {
            2
        } else if c == '3' {
            3
        } else if c == '4' {
            4
        } else if c == '5' {
            5
        } else if c == '6' {
            6
        } else if c == '7' {
            7
        } else if c == '8' {
            8
        } else if c == '9' {
            9
        } else {
            10
        };
        if d == 10 {
            proof {
                assert(!is_digit(t@[k as int])) by {
                    if is_digit(t@[k as int]) {
                        assert(48 <= c as int <= 57);
                        assert(c == '0' || c == '1' || c == '2' || c == '3' || c == '4' || c == '5'
                            || c == '6' || c == '7' || c == '8' || c == '9');
                    }
                }
                assert(int_body(t@)[k - start] == t@[k as int]);
                assert(!all_digits(int_body(t@)));
            }
            return None;
        }
        proof {
            assert(is_digit(t@[k as int]));
            assert(d as int == digit_val(t@[k as int]));
        }
        acc = acc * 10 + (d as i64);
        proof {
            assert(t@.subrange(start as int, k + 1).drop_last() =~= t@.subrange(
                start as int,
                k as int,
            ));
            assert(t@.subrange(start as int, k + 1).last() == t@[k as int]);
        }
        if acc > 0x8000_0000i64 {
            proof {
                let body = int_body(t@);
                if all_digits(body) {
                    assert(body.take(k + 1 - start) =~= t@.subrange(start as int, k + 1));
                    lemma_digits_val_take(body, k + 1 - start);
                }
            }
            return None;
        }
        k = k + 1;
    }
    proof {
        assert(int_body(t@) =~= t@.subrange(start as int, n as int));
        assert(all_digits(int_body(t@)));
        assert(acc == digits_val(int_body(t@)));
    }
    if neg {
        if acc == 0x8000_0000i64 {
            Some(i32::MIN)
        } else {
            Some(-(acc as i32))
        }
    } else {
        if acc >= 0x8000_0000i64 {
            None
        } else {
            Some(acc as i32)
        }
    }
}

} // verus!
