//! Character sequences: the bridge between strings and the vectors of
//! characters that the rest of the library scans by index.

use vstd::prelude::*;

verus! {

/// Index of the first occurrence of `c` in `s`, or the length of `s` where
/// `c` does not occur.
pub open spec fn position(s: Seq<char>, c: char) -> nat
    decreases s.len(),
{
    if s.len() == 0 || s[0] == c {
        0
    } else {
        1 + position(s.skip(1), c)
    }
}

/// `position` is the only index that has `c`, or the end, behind a prefix
/// free of `c`.
pub proof fn lemma_position_is(s: Seq<char>, c: char, n: int)
    requires
        0 <= n <= s.len(),
        forall|k: int| 0 <= k < n ==> s[k] != c,
        n == s.len() || s[n] == c,
    ensures
        position(s, c) == n,
    decreases s.len(),
{
    if n > 0 {
        lemma_position_is(s.skip(1), c, n - 1);
    }
}

/// What `position` finds: a prefix free of `c`, ended by `c` or by the end.
pub proof fn lemma_position_found(s: Seq<char>, c: char)
    ensures
        position(s, c) <= s.len(),
        forall|k: int| 0 <= k < position(s, c) ==> s[k] != c,
        position(s, c) < s.len() ==> s[position(s, c) as int] == c,
    decreases s.len(),
{
    if s.len() == 0 || s[0] == c {
    } else {
        let rest = s.skip(1);
        lemma_position_found(rest, c);
        assert forall|k: int| 0 <= k < position(s, c) implies s[k] != c by {
            if k > 0 {
                assert(s[k] == rest[k - 1]);
            }
        }
        if position(s, c) < s.len() {
            assert(s[position(s, c) as int] == rest[position(rest, c) as int]);
        }
    }
}

/// Whether `token` can stand in a stored line: it holds neither a tab nor a
/// line feed.
pub open spec fn storable(token: Seq<char>) -> bool {
    forall|i: int| 0 <= i < token.len() ==> token[i] != '\t' && token[i] != '\n'
}

/// The characters of a string, as a vector.
pub fn chars_of(s: &str) -> (v: Vec<char>)
    ensures
        v@ == s@,
{
    let mut v: Vec<char> = Vec::new();
    for c in it: s.chars()
        invariant
            it.seq() == s@,
            v@ == it.seq().take(it.index()),
    {
        v.push(c);
        assert(v@ =~= it.seq().take(it.index() + 1));
    }
    assert(v@ =~= s@);
    v
}

/// Appends the characters of `s` to `out`.
pub fn push_str(out: &mut Vec<char>, s: &str)
    ensures
        final(out)@ == old(out)@ + s@,
{
    let ghost before = out@;
    for c in it: s.chars()
        invariant
            it.seq() == s@,
            out@ == before + it.seq().take(it.index()),
    {
        out.push(c);
        assert(out@ =~= before + it.seq().take(it.index() + 1));
    }
    assert(out@ =~= before + s@);
}

/// `String::from_iter` on a vector of characters: the string holds the
/// vector's characters, in the vector's order.
#[verifier::external_body]
pub(crate) fn string_of(v: Vec<char>) -> (s: String)
    ensures
        s@ == v@,
{
    String::from_iter(v)
}

} // verus!
