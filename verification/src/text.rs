//! Character-level helpers on strings: equality and prefix tests.

use vstd::prelude::*;

verus! {

/// `p` is an initial segment of `s`.
pub open spec fn is_prefix_of(p: Seq<char>, s: Seq<char>) -> bool {
    p.len() <= s.len() && p == s.take(p.len() as int)
}

/// Character-by-character string equality.
pub fn str_eq(a: &str, b: &str) -> (r: bool)
    ensures
        r == (a@ == b@),
{
    let a_len: usize = a.unicode_len();
    let b_len: usize = b.unicode_len();
    if a_len != b_len {
        return false;
    }
    let mut i: usize = 0;
    while i < a_len
        invariant
            i <= a_len,
            a_len == a@.len(),
            b_len == b@.len(),
            a_len == b_len,
            forall|k: int| 0 <= k < i ==> a@[k] == b@[k],
        decreases a_len - i,
    {
        if a.get_char(i) != b.get_char(i) {
            return false;
        }
        i = i + 1;
    }
    proof {
        assert(a@ =~= b@);
    }
    true
}

/// Does `pat` occur in `s` starting at character position `pos`?
pub fn is_prefix_at(s: &str, pat: &str, pos: usize) -> (r: bool)
    requires
        pos <= s@.len(),
    ensures
        r == is_prefix_of(pat@, s@.skip(pos as int)),
{
    let s_len: usize = s.unicode_len();
    let p_len: usize = pat.unicode_len();
    if p_len > s_len - pos {
        return false;
    }
    let mut i: usize = 0;
    while i < p_len
        invariant
            i <= p_len,
            s_len == s@.len(),
            p_len == pat@.len(),
            pos + p_len <= s_len,
            forall|k: int| 0 <= k < i ==> pat@[k] == s@[pos + k],
        decreases p_len - i,
    {
        if s.get_char(pos + i) != pat.get_char(i) {
            proof {
                assert(!is_prefix_of(pat@, s@.skip(pos as int))) by {
                    if is_prefix_of(pat@, s@.skip(pos as int)) {
                        let tk: Seq<char> = s@.skip(pos as int).take(pat@.len() as int);
                        assert(pat@[i as int] == tk[i as int]);
                    }
                }
            }
            return false;
        }
        i = i + 1;
    }
    proof {
        assert(pat@ =~= s@.skip(pos as int).take(pat@.len() as int));
    }
    true
}

} // verus!
