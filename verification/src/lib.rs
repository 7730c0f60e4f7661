//! Local sequence alignment with affine gap penalties.
//!
//! The crate has two parts: a loader that turns a textual substitution-matrix
//! definition into a symmetric score table, and the Gotoh three-matrix
//! dynamic-programming engine that computes the optimal local alignment of two
//! symbol sequences against that table, together with a per-column annotation
//! of the reported alignment.

use vstd::prelude::*;

pub mod similarity_matrix;
pub mod smith_waterman;
pub mod text;

verus! {

/// The view of a string with a single space written between consecutive
/// characters, as the alignment report lays characters out.
pub open spec fn spaced(s: Seq<char>) -> Seq<char>
    decreases s.len(),
{
    if s.len() <= 1 {
        s
    } else {
        spaced(s.drop_last()) + seq![' ', s.last()]
    }
}

/// Writes a single space between consecutive characters of `s`.
pub fn spaced_string(s: &String) -> (r: String)
    ensures
        r@ == spaced(s@),
{
    let chars = crate::text::to_char_vec(s.as_str());
    let mut out = String::new();
    let mut i: usize = 0;
    while i < chars.len()
        invariant
            chars@ == s@,
            i <= s@.len(),
            out@ == spaced(s@.take(i as int)),
        decreases s@.len() - i,
    {
        if i > 0 {
            crate::text::push_char(&mut out, ' ');
        }
        crate::text::push_char(&mut out, chars[i]);
        proof {
            assert(s@.take(i + 1).drop_last() =~= s@.take(i as int));
            assert(s@.take(i + 1).last() == s@[i as int]);
            if i == 0 {
                assert(s@.take(1) =~= Seq::<char>::empty().push(s@[0]));
            } else {
                assert(spaced(s@.take(i as int)) + seq![' ', s@[i as int]]
                    =~= spaced(s@.take(i as int)).push(' ').push(s@[i as int]));
            }
        }
        i = i + 1;
    }
    proof {
        assert(s@.take(s@.len() as int) =~= s@);
    }
    out
}

} // verus!
