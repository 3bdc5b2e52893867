//! The vocabulary: each distinct token with its integer identifier.

use crate::decimal::{decimal_text, parse_decimal, push_decimal};
use crate::order::{
    capacity, first_seen, is_numbering, lemma_first_seen_distinct, lemma_first_seen_grows,
};
use crate::storage::{
    entry_line, first_fault, has_id_field, id_field, line_id, lines_of, loaded, token_field,
    token_fields, without_cr, written,
};
use crate::text::{chars_of, lemma_position_is, push_str, storable, string_of};
use crate::tokens::{split_tokens, tokens_of};
use vstd::hash_map::StringHashMap;
use vstd::prelude::*;

verus! {

/// Why a vocabulary could not be made.
#[derive(Debug, Clone, Copy, PartialEq, Eq)]
pub enum VocabError {
    /// The text holds more distinct tokens than there are identifiers.
    TooManyTokens,
    /// The line with this index, counted from zero, has no tab and so no
    /// identifier field.
    MissingId { line: usize },
    /// The identifier field of the line with this index, counted from zero,
    /// is not a decimal 32-bit integer.
    InvalidId { line: usize },
}

/// The line that shows `token` with `id` to a reader.
pub open spec fn shown_line(token: Seq<char>, id: i32) -> Seq<char> {
    "  KEY: "@ + token + ", VALUE: "@ + decimal_text(id as int) + seq!['\n']
}

/// The readable listing of `ids`: the line of each token of `order`, in
/// that order.
pub open spec fn shown(order: Seq<Seq<char>>, ids: Map<Seq<char>, i32>) -> Seq<char>
    decreases order.len(),
{
    if order.len() == 0 {
        Seq::empty()
    } else {
        shown(order.drop_last(), ids) + shown_line(order.last(), ids[order.last()])
    }
}

/// A mapping from tokens to identifiers that remembers the order in which
/// its tokens came.
pub struct Vocab {
    map: StringHashMap<i32>,
    keys: Vec<String>,
}

impl View for Vocab {
    type V = Map<Seq<char>, i32>;

    /// The identifier of each token.
    closed spec fn view(&self) -> Map<Seq<char>, i32> {
        self.map@
    }
}

impl Vocab {
    /// The tokens, each once, in the order in which they were first added.
    pub closed spec fn order(&self) -> Seq<Seq<char>> {
        self.keys.deep_view()
    }

    /// The invariant: `order` lists the tokens that have an identifier, each
    /// once.
    pub open spec fn wf(&self) -> bool {
        &&& self.order().no_duplicates()
        &&& self@.dom() == self.order().to_set()
    }

    fn empty() -> (v: Vocab)
        ensures
            v.wf(),
            v@ == Map::<Seq<char>, i32>::empty(),
            v.order() == Seq::<Seq<char>>::empty(),
    {
        let v = Vocab { map: StringHashMap::new(), keys: Vec::new() };
        assert(v.order() =~= Seq::<Seq<char>>::empty());
        assert(v@.dom() =~= v.order().to_set());
        v
    }

    /// Gives `token`, which has no identifier yet, the identifier `id`.
    fn append(&mut self, token: String, id: i32)
        requires
            old(self).wf(),
            !old(self)@.contains_key(token@),
        ensures
            final(self).wf(),
            final(self)@ == old(self)@.insert(token@, id),
            final(self).order() == old(self).order().push(token@),
    {
        let ghost order = self.order();
        proof {
            assert(!order.contains(token@));
            order.lemma_push_to_set_commute(token@);
        }
        self.keys.push(token.clone());
        assert(self.order() =~= order.push(token@));
        self.map.insert(token, id);
        assert(self@.dom() =~= self.order().to_set());
    }

    /// Gives `token` the identifier `id`, in place of the one it may have.
    fn put(&mut self, token: String, id: i32)
        requires
            old(self).wf(),
        ensures
            final(self).wf(),
            final(self)@ == old(self)@.insert(token@, id),
            final(self).order() == if old(self).order().contains(token@) {
                old(self).order()
            } else {
                old(self).order().push(token@)
            },
    {
        if self.map.contains_key(token.as_str()) {
            assert(self.order().contains(token@));
            self.map.insert(token, id);
            assert(self@.dom() =~= self.order().to_set());
        } else {
            assert(!self.order().contains(token@));
            self.append(token, id);
        }
    }

    /// Builds the vocabulary of `text`: its distinct tokens, numbered from
    /// zero in the order in which each first occurs.
    pub fn new(text: &str) -> (r: Result<Vocab, VocabError>)
        ensures
            r is Ok <==> first_seen(tokens_of(text@)).len() <= capacity(),
            match r {
                Ok(v) => {
                    &&& v.wf()
                    &&& v.order() == first_seen(tokens_of(text@))
                    &&& is_numbering(v@, v.order())
                    &&& v@.dom() == tokens_of(text@).to_set()
                    &&& v@.len() == tokens_of(text@).to_set().len()
                    &&& forall|i: int|
                        0 <= i < v.order().len() ==> storable(#[trigger] v.order()[i])
                },
                Err(e) => e == VocabError::TooManyTokens,
            },
    {
        let tokens = split_tokens(text);
        let ghost all = tokens.deep_view();
        let mut v = Vocab::empty();
        let mut i: usize = 0;
        assert(all.take(0) =~= Seq::<Seq<char>>::empty());
        while i < tokens.len()
            invariant
                i <= tokens.len(),
                all == tokens.deep_view(),
                all == tokens_of(text@),
                v.wf(),
                v.order() == first_seen(all.take(i as int)),
                is_numbering(v@, v.order()),
                v.keys.len() == v.order().len(),
                v.order().len() <= capacity(),
            decreases tokens.len() - i,
        {
            let term = &tokens[i];
            let ghost order = v.order();
            proof {
                assert(all.take(i + 1).drop_last() =~= all.take(i as int));
                assert(all.take(i + 1).last() == term@);
            }
            if !v.map.contains_key(term.as_str()) {
                assert(!order.contains(term@));
                if v.keys.len() > 0x7fff_ffff {
                    proof {
                        lemma_first_seen_grows(all, i + 1);
                    }
                    return Err(VocabError::TooManyTokens);
                }
                let id: i32 = v.keys.len() as i32;
                v.append(term.clone(), id);
                assert forall|k: int| 0 <= k < v.order().len() implies v@[#[trigger] v.order()[k]]
                    == k by {
                    if k < order.len() {
                        assert(order[k] != term@);
                    }
                }
            } else {
                assert(order.contains(term@));
            }
            i += 1;
        }
        proof {
            assert(all.take(i as int) =~= all);
            lemma_first_seen_distinct(all);
            assert forall|k: int| 0 <= k < v.order().len() implies storable(
                #[trigger] v.order()[k],
            ) by {
                assert(v.order().to_set().contains(v.order()[k]));
                assert(all.contains(v.order()[k]));
                let j = choose|j: int| 0 <= j < all.len() && all[j] == v.order()[k];
                assert(all[j] == tokens[j]@);
            }
        }
        Ok(v)
    }

    /// Splits `text` into its tokens: the maximal runs of letters, digits
    /// and apostrophes, each in lower case, in the order of the text. No
    /// token is empty, and none holds a tab or a line feed.
    pub fn tokenize(text: String) -> (tokens: Vec<String>)
        ensures
            tokens.deep_view() == tokens_of(text@),
            forall|i: int| 0 <= i < tokens.len() ==> (#[trigger] tokens[i])@.len() > 0,
            forall|i: int| 0 <= i < tokens.len() ==> storable((#[trigger] tokens[i])@),
    {
        split_tokens(text.as_str())
    }

    /// Reads the characters of `chars` from `from` up to `to` as one line:
    /// its token and its identifier, or the fault of the line, reported
    /// under the index `number`.
    fn parse_line(chars: &Vec<char>, from: usize, to: usize, number: usize) -> (r: Result<
        (String, i32),
        VocabError,
    >)
        requires
            from <= to <= chars.len(),
        ensures
            match r {
                Ok((token, id)) => {
                    &&& token@ == token_field(chars@.subrange(from as int, to as int))
                    &&& line_id(chars@.subrange(from as int, to as int)) == Some(id)
                },
                Err(e) => {
                    &&& line_id(chars@.subrange(from as int, to as int)) is None
                    &&& e == if has_id_field(chars@.subrange(from as int, to as int)) {
                        VocabError::InvalidId { line: number }
                    } else {
                        VocabError::MissingId { line: number }
                    }
                },
            },
    {
        let ghost line = chars@.subrange(from as int, to as int);
        let mut token: Vec<char> = Vec::new();
        let mut t: usize = from;
        while t < to && chars[t] != '\t'
            invariant
                from <= t <= to <= chars.len(),
                token@ == chars@.subrange(from as int, t as int),
                forall|k: int| from <= k < t ==> chars@[k] != '\t',
            decreases to - t,
        {
            token.push(chars[t]);
            t += 1;
            assert(token@ =~= chars@.subrange(from as int, t as int));
        }
        proof {
            lemma_position_is(line, '\t', t - from);
            assert(token@ =~= token_field(line));
        }
        if t == to {
            return Err(VocabError::MissingId { line: number });
        }
        assert(id_field(line) =~= chars@.subrange(t + 1, to as int));
        match parse_decimal(chars, t + 1, to) {
            Some(id) => Ok((string_of(token), id)),
            None => Err(VocabError::InvalidId { line: number }),
        }
    }

    /// Restores a vocabulary from its stored form: one line for each token,
    /// made of the token, a tab and the identifier in decimal. Where a
    /// token has several lines the last one counts. The first line without
    /// a tab, or with an identifier field that is no 32-bit integer, fails
    /// the whole.
    pub fn load(contents: &str) -> (r: Result<Vocab, VocabError>)
        ensures
            match r {
                Ok(v) => {
                    &&& v.wf()
                    &&& forall|k: int|
                        0 <= k < lines_of(contents@).len() ==> line_id(
                            #[trigger] lines_of(contents@)[k],
                        ) is Some
                    &&& v@ == loaded(lines_of(contents@))
                    &&& v.order() == first_seen(token_fields(lines_of(contents@)))
                },
                Err(VocabError::MissingId { line }) => {
                    &&& first_fault(lines_of(contents@), line as int)
                    &&& !has_id_field(lines_of(contents@)[line as int])
                },
                Err(VocabError::InvalidId { line }) => {
                    &&& first_fault(lines_of(contents@), line as int)
                    &&& has_id_field(lines_of(contents@)[line as int])
                },
                Err(VocabError::TooManyTokens) => false,
            },
    {
        let chars = chars_of(contents);
        let ghost lines = lines_of(chars@);
        let ghost mut done: Seq<Seq<char>> = Seq::empty();
        let mut v = Vocab::empty();
        let mut count: usize = 0;
        let mut i: usize = 0;
        proof {
            assert(chars@.skip(0) =~= chars@);
            assert(done + lines =~= lines);
            assert(token_fields(done) =~= Seq::<Seq<char>>::empty());
        }
        while i < chars.len()
            invariant
                i <= chars.len(),
                chars@ == contents@,
                lines == lines_of(chars@),
                done + lines_of(chars@.skip(i as int)) == lines,
                count == done.len(),
                count <= i,
                forall|k: int| 0 <= k < done.len() ==> line_id(#[trigger] done[k]) is Some,
                v.wf(),
                v@ == loaded(done),
                v.order() == first_seen(token_fields(done)),
            decreases chars.len() - i,
        {
            let ghost rest = chars@.skip(i as int);
            let mut j: usize = i;
            while j < chars.len() && chars[j] != '\n'
                invariant
                    i <= j <= chars.len(),
                    forall|k: int| i <= k < j ==> chars@[k] != '\n',
                decreases chars.len() - j,
            {
                j += 1;
            }
            let ended = j < chars.len();
            let end: usize = if ended && j > i && chars[j - 1] == '\r' {
                (j - 1) as usize
            } else {
                j
            };
            let next: usize = if ended {
                (j + 1) as usize
            } else {
                j
            };
            let ghost line = chars@.subrange(i as int, end as int);
            proof {
                lemma_position_is(rest, '\n', j - i);
                assert(rest.take(j - i) =~= chars@.subrange(i as int, j as int));
                if ended {
                    assert(rest.skip(j - i + 1) =~= chars@.skip(next as int));
                    assert(without_cr(chars@.subrange(i as int, j as int)) =~= line);
                } else {
                    assert(rest =~= line);
                    assert(lines_of(chars@.skip(next as int)) =~= Seq::<Seq<char>>::empty());
                }
                assert(lines_of(rest) =~= seq![line] + lines_of(chars@.skip(next as int)));
                assert(lines =~= done.push(line) + lines_of(chars@.skip(next as int)));
                assert(lines[count as int] == line);
                assert forall|k: int| 0 <= k < count implies line_id(#[trigger] lines[k])
                    is Some by {
                    assert(lines[k] == done[k]);
                }
            }
            match Vocab::parse_line(&chars, i, end, count) {
                Ok((token, id)) => {
                    proof {
                        let grown = done.push(line);
                        assert(grown.drop_last() =~= done);
                        assert(token_fields(grown).drop_last() =~= token_fields(done));
                        assert(token_fields(grown).last() == token@);
                    }
                    v.put(token, id);
                    proof {
                        done = done.push(line);
                    }
                },
                Err(e) => {
                    return Err(e);
                },
            }
            count += 1;
            i = next;
        }
        proof {
            assert(lines_of(chars@.skip(i as int)) =~= Seq::<Seq<char>>::empty());
            assert(done =~= lines);
        }
        Ok(v)
    }

    /// The stored form of the vocabulary: one line for each token, in the
    /// order in which the tokens came.
    pub fn write(&self) -> (contents: String)
        requires
            self.wf(),
        ensures
            contents@ == written(self.order(), self@),
    {
        let mut out: Vec<char> = Vec::new();
        let mut i: usize = 0;
        assert(self.order().take(0) =~= Seq::<Seq<char>>::empty());
        while i < self.keys.len()
            invariant
                i <= self.keys.len(),
                self.keys.len() == self.order().len(),
                self.wf(),
                out@ == written(self.order().take(i as int), self@),
            decreases self.keys.len() - i,
        {
            let token = &self.keys[i];
            proof {
                assert(self.order().take(i + 1).drop_last() =~= self.order().take(i as int));
                assert(self.order().take(i + 1).last() == token@);
                assert(self.order().to_set().contains(self.order()[i as int]));
            }
            let id: i32 = *self.map.get(token.as_str()).unwrap();
            let ghost before = out@;
            push_str(&mut out, token.as_str());
            out.push('\t');
            push_decimal(&mut out, id);
            out.push('\n');
            assert(out@ =~= before + entry_line(token@, id));
            i += 1;
        }
        assert(self.order().take(i as int) =~= self.order());
        string_of(out)
    }

    /// A listing of the vocabulary for a reader: one line for each token,
    /// in the order in which the tokens came.
    pub fn show(&self) -> (listing: String)
        requires
            self.wf(),
        ensures
            listing@ == shown(self.order(), self@),
    {
        let mut out: Vec<char> = Vec::new();
        let mut i: usize = 0;
        assert(self.order().take(0) =~= Seq::<Seq<char>>::empty());
        while i < self.keys.len()
            invariant
                i <= self.keys.len(),
                self.keys.len() == self.order().len(),
                self.wf(),
                out@ == shown(self.order().take(i as int), self@),
            decreases self.keys.len() - i,
        {
            let token = &self.keys[i];
            proof {
                assert(self.order().take(i + 1).drop_last() =~= self.order().take(i as int));
                assert(self.order().take(i + 1).last() == token@);
                assert(self.order().to_set().contains(self.order()[i as int]));
            }
            let id: i32 = *self.map.get(token.as_str()).unwrap();
            let ghost before = out@;
            push_str(&mut out, "  KEY: ");
            push_str(&mut out, token.as_str());
            push_str(&mut out, ", VALUE: ");
            push_decimal(&mut out, id);
            out.push('\n');
            assert(out@ =~= before + shown_line(token@, id));
            i += 1;
        }
        assert(self.order().take(i as int) =~= self.order());
        string_of(out)
    }

    /// The number of tokens.
    pub fn size(&self) -> (n: usize)
        requires
            self.wf(),
        ensures
            n == self@.len(),
            n == self.order().len(),
    {
        proof {
            self.order().unique_seq_to_set();
        }
        self.map.len()
    }
}

} // verus!
