//! Tokens: the maximal runs of letters, digits and apostrophes of a text, in
//! lower case and in the order of the text.

use crate::text::{chars_of, storable, string_of};
use vstd::prelude::*;

verus! {

/// What `char::is_alphanumeric` answers for `c`.
pub uninterp spec fn alphanumeric(c: char) -> bool;

/// The lower-case mapping that `char::to_lowercase` gives for `c`.
pub uninterp spec fn lower(c: char) -> Seq<char>;

/// `char::is_alphanumeric`: whether Unicode counts `c` as a letter or a
/// number. The answer depends on `c` alone; nothing more is claimed of it.
#[verifier::external_body]
fn is_alphanumeric(c: char) -> (r: bool)
    ensures
        r == alphanumeric(c),
{
    c.is_alphanumeric()
}

/// `char::to_lowercase`: the lower-case mapping of `c` by Unicode's rules,
/// which is one or more characters. It depends on `c` alone; nothing more is
/// claimed of it.
#[verifier::external_body]
fn lower_of(c: char) -> (r: Vec<char>)
    ensures
        r@ == lower(c),
        r@.len() >= 1,
{
    c.to_lowercase().collect()
}

/// Whether `c` belongs to a token: a letter, a digit or an apostrophe. Every
/// other character separates tokens. White space separates, so a tab and a
/// line feed, which end the fields and lines of the stored form, never
/// belong to a token.
pub open spec fn is_token_char(c: char) -> bool {
    (alphanumeric(c) || c == '\'') && c != '\t' && c != '\n'
}

/// The lower-case form of `c` within a token: its lower-case mapping. No
/// token may hold a tab or a line feed, so a mapping that held one would be
/// set aside and `c` kept as it is.
pub open spec fn folded(c: char) -> Seq<char> {
    if storable(lower(c)) {
        lower(c)
    } else {
        seq![c]
    }
}

/// The text `s` in lower case, character by character: each character gives
/// its own lower-case form, whatever stands beside it.
pub open spec fn lowercase(s: Seq<char>) -> Seq<char>
    decreases s.len(),
{
    if s.len() == 0 {
        Seq::empty()
    } else {
        lowercase(s.drop_last()) + folded(s.last())
    }
}

/// For each character of `s`, whether it belongs to a token.
pub open spec fn token_flags(s: Seq<char>) -> Seq<bool> {
    Seq::new(s.len(), |i: int| is_token_char(s[i]))
}

/// The number of `true` flags at the front of `keep`.
pub open spec fn run_length(keep: Seq<bool>) -> nat
    decreases keep.len(),
{
    if keep.len() == 0 || !keep[0] {
        0
    } else {
        1 + run_length(keep.skip(1))
    }
}

/// The maximal runs of kept characters of `s`, in order: `keep` says of each
/// character whether it is kept, and a character that is not kept ends a run
/// and belongs to none. No run is empty.
pub open spec fn runs(s: Seq<char>, keep: Seq<bool>) -> Seq<Seq<char>>
    decreases s.len(),
    via runs_decreases
{
    if s.len() == 0 || keep.len() != s.len() {
        Seq::empty()
    } else if !keep[0] {
        runs(s.skip(1), keep.skip(1))
    } else {
        let n = run_length(keep) as int;
        seq![s.take(n)] + runs(s.skip(n), keep.skip(n))
    }
}

#[via_fn]
proof fn runs_decreases(s: Seq<char>, keep: Seq<bool>) {
    lemma_run_length_found(keep);
}

/// Each text of `pieces` in lower case.
pub open spec fn lowered(pieces: Seq<Seq<char>>) -> Seq<Seq<char>> {
    Seq::new(pieces.len(), |i: int| lowercase(pieces[i]))
}

/// The tokens of the text `s`: its maximal runs of token characters, each in
/// lower case, in the order of the text and with repetitions.
pub open spec fn tokens_of(s: Seq<char>) -> Seq<Seq<char>> {
    lowered(runs(s, token_flags(s)))
}

/// What `run_length` finds: a front of `true` flags, ended by a `false` one
/// or by the end.
pub proof fn lemma_run_length_found(keep: Seq<bool>)
    ensures
        run_length(keep) <= keep.len(),
        forall|k: int| 0 <= k < run_length(keep) ==> keep[k],
        run_length(keep) < keep.len() ==> !keep[run_length(keep) as int],
    decreases keep.len(),
{
    if keep.len() == 0 || !keep[0] {
    } else {
        let rest = keep.skip(1);
        lemma_run_length_found(rest);
        assert forall|k: int| 0 <= k < run_length(keep) implies keep[k] by {
            if k > 0 {
                assert(keep[k] == rest[k - 1]);
            }
        }
        if run_length(keep) < keep.len() {
            assert(keep[run_length(keep) as int] == rest[run_length(rest) as int]);
        }
    }
}

/// `run_length` is the only length of a front of `true` flags that a `false`
/// flag or the end follows.
pub proof fn lemma_run_length_is(keep: Seq<bool>, n: int)
    requires
        0 <= n <= keep.len(),
        forall|k: int| 0 <= k < n ==> keep[k],
        n == keep.len() || !keep[n],
    ensures
        run_length(keep) == n,
    decreases keep.len(),
{
    if n > 0 {
        lemma_run_length_is(keep.skip(1), n - 1);
    }
}

/// The texts of `pieces` in a row, with `sep` between each two.
pub open spec fn joined(pieces: Seq<Seq<char>>, sep: char) -> Seq<char>
    decreases pieces.len(),
{
    if pieces.len() == 0 {
        Seq::empty()
    } else if pieces.len() == 1 {
        pieces[0]
    } else {
        pieces[0] + seq![sep] + joined(pieces.skip(1), sep)
    }
}

/// Whether `piece` could be a run of a text: it is not empty and made of
/// token characters alone.
pub open spec fn is_run(piece: Seq<char>) -> bool {
    &&& piece.len() > 0
    &&& forall|i: int| 0 <= i < piece.len() ==> is_token_char(#[trigger] piece[i])
}

/// The pieces that a text is split into are runs: none is empty, and each is
/// made of token characters alone.
pub proof fn lemma_pieces_are_runs(s: Seq<char>)
    ensures
        forall|i: int|
            0 <= i < runs(s, token_flags(s)).len() ==> is_run(
                #[trigger] runs(s, token_flags(s))[i],
            ),
    decreases s.len(),
{
    let keep = token_flags(s);
    if s.len() == 0 {
    } else if !keep[0] {
        assert(keep.skip(1) =~= token_flags(s.skip(1)));
        lemma_pieces_are_runs(s.skip(1));
        assert(runs(s, keep) == runs(s.skip(1), token_flags(s.skip(1))));
    } else {
        let n = run_length(keep) as int;
        let piece = s.take(n);
        lemma_run_length_found(keep);
        assert(keep.skip(n) =~= token_flags(s.skip(n)));
        lemma_pieces_are_runs(s.skip(n));
        assert forall|k: int| 0 <= k < piece.len() implies is_token_char(#[trigger] piece[k]) by {
            assert(keep[k]);
        }
        assert(is_run(piece));
        let tail = runs(s.skip(n), keep.skip(n));
        assert(runs(s, keep) == seq![piece] + tail);
        assert forall|i: int| 0 <= i < runs(s, keep).len() implies is_run(
            #[trigger] runs(s, keep)[i],
        ) by {
            if i > 0 {
                assert(runs(s, keep)[i] == tail[i - 1]);
            } else {
                assert(runs(s, keep)[0] == piece);
            }
        }
    }
}

/// Any character that is no token character separates: runs joined by it are
/// split into exactly those runs again, and the tokens of the joined text are
/// those runs in lower case.
pub proof fn lemma_separator_splits(pieces: Seq<Seq<char>>, sep: char)
    requires
        !is_token_char(sep),
        forall|i: int| 0 <= i < pieces.len() ==> is_run(#[trigger] pieces[i]),
    ensures
        runs(joined(pieces, sep), token_flags(joined(pieces, sep))) == pieces,
        tokens_of(joined(pieces, sep)) == lowered(pieces),
    decreases pieces.len(),
{
    let s = joined(pieces, sep);
    let keep = token_flags(s);
    if pieces.len() == 0 {
        assert(runs(s, keep) =~= pieces);
    } else {
        let t = pieces[0];
        let n = t.len() as int;
        assert(is_run(t));
        if pieces.len() == 1 {
            lemma_run_length_is(keep, n);
            assert(s.take(n) =~= t);
            assert(s.skip(n).len() == 0);
            assert(keep[0] == is_token_char(t[0]));
            assert(runs(s.skip(n), keep.skip(n)) =~= Seq::<Seq<char>>::empty());
            assert(runs(s, keep) =~= seq![t]);
            assert(seq![t] =~= pieces);
        } else {
            let tail = pieces.skip(1);
            let rest = joined(tail, sep);
            assert forall|i: int| 0 <= i < tail.len() implies is_run(#[trigger] tail[i]) by {
                assert(tail[i] == pieces[i + 1]);
            }
            lemma_separator_splits(tail, sep);
            assert(s == t + seq![sep] + rest);
            assert forall|k: int| 0 <= k < n implies keep[k] by {
                assert(s[k] == t[k]);
            }
            assert(s[n] == sep);
            lemma_run_length_is(keep, n);
            assert(s.take(n) =~= t);
            let s1 = s.skip(n);
            let k1 = keep.skip(n);
            assert(s1.len() == k1.len());
            assert(!k1[0]);
            assert(s1.skip(1) =~= rest);
            assert(k1.skip(1) =~= token_flags(rest));
            assert(runs(s1, k1) == runs(rest, token_flags(rest)));
            assert(keep[0] == is_token_char(t[0]));
            assert(runs(s, keep) =~= seq![t] + tail);
            assert(seq![t] + tail =~= pieces);
        }
    }
}

/// Lower case brings neither a tab nor a line feed into a text that holds
/// none.
pub proof fn lemma_lowercase_storable(s: Seq<char>)
    requires
        storable(s),
    ensures
        storable(lowercase(s)),
    decreases s.len(),
{
    if s.len() > 0 {
        let head = s.drop_last();
        assert forall|i: int| 0 <= i < head.len() implies head[i] != '\t' && head[i] != '\n' by {
            assert(head[i] == s[i]);
        }
        lemma_lowercase_storable(head);
        let a = lowercase(head);
        let b = folded(s.last());
        assert(s.last() == s[s.len() - 1]);
        assert(storable(b));
        assert forall|i: int| 0 <= i < (a + b).len() implies (a + b)[i] != '\t' && (a + b)[i]
            != '\n' by {
            if i >= a.len() {
                assert((a + b)[i] == b[i - a.len()]);
            }
        }
    }
}

/// No token of a text holds a tab or a line feed.
pub proof fn lemma_tokens_storable(s: Seq<char>)
    ensures
        forall|i: int| 0 <= i < tokens_of(s).len() ==> storable(#[trigger] tokens_of(s)[i]),
{
    let pieces = runs(s, token_flags(s));
    lemma_pieces_are_runs(s);
    assert forall|i: int| 0 <= i < tokens_of(s).len() implies storable(
        #[trigger] tokens_of(s)[i],
    ) by {
        let piece = pieces[i];
        assert(is_run(piece));
        assert forall|k: int| 0 <= k < piece.len() implies piece[k] != '\t' && piece[k]
            != '\n' by {
            assert(is_token_char(piece[k]));
        }
        lemma_lowercase_storable(piece);
    }
}

/// Chooses the lower-case form of `c` within a token: `low`, the mapping
/// found for it, or `c` itself where `low` holds a tab or a line feed.
pub fn fold_char(c: char, low: Vec<char>) -> (r: Vec<char>)
    ensures
        r@ == if storable(low@) {
            low@
        } else {
            seq![c]
        },
{
    let mut i: usize = 0;
    while i < low.len()
        invariant
            i <= low.len(),
            forall|k: int| 0 <= k < i ==> low@[k] != '\t' && low@[k] != '\n',
        decreases low.len() - i,
    {
        if low[i] == '\t' || low[i] == '\n' {
            return vec![c];
        }
        i += 1;
    }
    low
}

/// The text `s` in lower case, character by character.
pub fn lower_text(s: &str) -> (r: String)
    ensures
        r@ == lowercase(s@),
        s@.len() > 0 ==> r@.len() > 0,
{
    let mut out: Vec<char> = Vec::new();
    assert(s@.take(0) =~= Seq::<char>::empty());
    for c in it: s.chars()
        invariant
            it.seq() == s@,
            out@ == lowercase(it.seq().take(it.index())),
            it.index() > 0 ==> out@.len() > 0,
    {
        let mut low = fold_char(c, lower_of(c));
        proof {
            let next = it.seq().take(it.index() + 1);
            assert(next.drop_last() =~= it.seq().take(it.index()));
            assert(next.last() == c);
            assert(low@ == folded(c));
        }
        out.append(&mut low);
    }
    assert(s@.take(s@.len() as int) =~= s@);
    string_of(out)
}

/// Splits `chars` into its maximal runs of kept characters, where `keep`
/// says of each character whether it is kept.
pub fn split_runs(chars: &Vec<char>, keep: &Vec<bool>) -> (out: Vec<String>)
    requires
        keep.len() == chars.len(),
    ensures
        out.deep_view() == runs(chars@, keep@),
{
    let mut out: Vec<String> = Vec::new();
    let mut i: usize = 0;
    proof {
        assert(chars@.skip(0) =~= chars@);
        assert(keep@.skip(0) =~= keep@);
        assert(out.deep_view() + runs(chars@, keep@) =~= runs(chars@, keep@));
    }
    while i < chars.len()
        invariant
            i <= chars.len(),
            keep.len() == chars.len(),
            out.deep_view() + runs(chars@.skip(i as int), keep@.skip(i as int)) == runs(
                chars@,
                keep@,
            ),
        decreases chars.len() - i,
    {
        let ghost s = chars@.skip(i as int);
        let ghost k = keep@.skip(i as int);
        if !keep[i] {
            proof {
                assert(s.skip(1) =~= chars@.skip(i + 1));
                assert(k.skip(1) =~= keep@.skip(i + 1));
            }
            i += 1;
        } else {
            let mut run: Vec<char> = Vec::new();
            let mut j: usize = i;
            while j < chars.len() && keep[j]
                invariant
                    i <= j <= chars.len(),
                    keep.len() == chars.len(),
                    run@ == chars@.subrange(i as int, j as int),
                    forall|m: int| i <= m < j ==> keep@[m],
                decreases chars.len() - j,
            {
                run.push(chars[j]);
                j += 1;
                assert(run@ =~= chars@.subrange(i as int, j as int));
            }
            let piece = string_of(run);
            let ghost before = out.deep_view();
            proof {
                lemma_run_length_is(k, j - i);
                assert(s.take(j - i) =~= piece@);
                assert(s.skip(j - i) =~= chars@.skip(j as int));
                assert(k.skip(j - i) =~= keep@.skip(j as int));
            }
            out.push(piece);
            assert(out.deep_view() =~= before + seq![piece@]);
            assert(out.deep_view() + runs(chars@.skip(j as int), keep@.skip(j as int)) =~= before
                + runs(s, k));
            i = j;
        }
    }
    assert(out.deep_view() + Seq::<Seq<char>>::empty() =~= out.deep_view());
    out
}

/// Splits `text` into its tokens. No token is empty, and none holds a tab or
/// a line feed.
pub fn split_tokens(text: &str) -> (tokens: Vec<String>)
    ensures
        tokens.deep_view() == tokens_of(text@),
        forall|i: int| 0 <= i < tokens.len() ==> (#[trigger] tokens[i])@.len() > 0,
        forall|i: int| 0 <= i < tokens.len() ==> storable((#[trigger] tokens[i])@),
{
    let chars = chars_of(text);
    let mut keep: Vec<bool> = Vec::new();
    let mut i: usize = 0;
    while i < chars.len()
        invariant
            i <= chars.len(),
            keep@ == token_flags(chars@).take(i as int),
        decreases chars.len() - i,
    {
        let c = chars[i];
        keep.push((is_alphanumeric(c) || c == '\'') && c != '\t' && c != '\n');
        i += 1;
        assert(keep@ =~= token_flags(chars@).take(i as int));
    }
    assert(keep@ =~= token_flags(chars@));
    let pieces = split_runs(&chars, &keep);
    proof {
        lemma_pieces_are_runs(chars@);
    }
    let mut tokens: Vec<String> = Vec::new();
    let mut k: usize = 0;
    while k < pieces.len()
        invariant
            k <= pieces.len(),
            pieces.deep_view() == runs(chars@, token_flags(chars@)),
            forall|i: int| 0 <= i < pieces.len() ==> is_run(#[trigger] pieces.deep_view()[i]),
            tokens.deep_view() == lowered(pieces.deep_view()).take(k as int),
            forall|i: int| 0 <= i < tokens.len() ==> (#[trigger] tokens[i])@.len() > 0,
        decreases pieces.len() - k,
    {
        let token = lower_text(pieces[k].as_str());
        let ghost before = tokens.deep_view();
        proof {
            assert(pieces.deep_view()[k as int] == pieces[k as int]@);
            assert(is_run(pieces.deep_view()[k as int]));
            assert(token@ == lowered(pieces.deep_view())[k as int]);
        }
        tokens.push(token);
        assert(tokens.deep_view() =~= before.push(token@));
        k += 1;
        assert(tokens.deep_view() =~= lowered(pieces.deep_view()).take(k as int));
    }
    proof {
        assert(tokens.deep_view() =~= lowered(pieces.deep_view()));
        lemma_tokens_storable(text@);
        assert(tokens.deep_view() == tokens_of(text@));
        assert forall|i: int| 0 <= i < tokens.len() implies storable((#[trigger] tokens[i])@) by {
            assert(tokens[i]@ == tokens.deep_view()[i]);
            assert(storable(tokens_of(text@)[i]));
        }
    }
    tokens
}

} // verus!
