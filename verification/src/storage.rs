//! The stored form of a vocabulary: one line for each token, made of the
//! token, a tab and the identifier in decimal.

use crate::decimal::{
    decimal_text, decimal_value, lemma_decimal_round_trip, lemma_decimal_text_chars,
};
use crate::order::{
    first_seen, is_numbering, lemma_first_seen_distinct, lemma_first_seen_of_distinct,
};
use crate::text::{lemma_position_found, lemma_position_is, position, storable};
use crate::tokens::{lemma_tokens_storable, tokens_of};
use vstd::prelude::*;

verus! {

/// A line without the carriage return that may end it.
pub open spec fn without_cr(line: Seq<char>) -> Seq<char> {
    if line.len() > 0 && line.last() == '\r' {
        line.drop_last()
    } else {
        line
    }
}

/// The lines of the text `s`. A line feed ends a line, and so does a
/// carriage return with a line feed behind it; neither belongs to the line.
/// What follows the last line feed is a line of its own unless it is empty.
pub open spec fn lines_of(s: Seq<char>) -> Seq<Seq<char>>
    decreases s.len(),
    via lines_of_decreases
{
    if s.len() == 0 {
        Seq::empty()
    } else {
        let n = position(s, '\n') as int;
        if n == s.len() {
            seq![s]
        } else {
            seq![without_cr(s.take(n))] + lines_of(s.skip(n + 1))
        }
    }
}

#[via_fn]
proof fn lines_of_decreases(s: Seq<char>) {
    lemma_position_found(s, '\n');
}

/// Whether `line` has a tab, and so an identifier field.
pub open spec fn has_id_field(line: Seq<char>) -> bool {
    position(line, '\t') < line.len()
}

/// The token of `line`: what stands before its first tab.
pub open spec fn token_field(line: Seq<char>) -> Seq<char> {
    line.take(position(line, '\t') as int)
}

/// The identifier field of `line`: what stands behind its first tab.
pub open spec fn id_field(line: Seq<char>) -> Seq<char> {
    line.skip(position(line, '\t') as int + 1)
}

/// The identifier that `line` gives its token, if the line has an
/// identifier field that denotes one.
pub open spec fn line_id(line: Seq<char>) -> Option<i32> {
    if has_id_field(line) {
        decimal_value(id_field(line))
    } else {
        None
    }
}

/// The token of each line.
pub open spec fn token_fields(lines: Seq<Seq<char>>) -> Seq<Seq<char>> {
    Seq::new(lines.len(), |i: int| token_field(lines[i]))
}

/// The mapping that `lines` describe: each line gives its token its
/// identifier, and a later line for a token replaces an earlier one.
pub open spec fn loaded(lines: Seq<Seq<char>>) -> Map<Seq<char>, i32>
    decreases lines.len(),
{
    if lines.len() == 0 {
        Map::empty()
    } else {
        loaded(lines.drop_last()).insert(
            token_field(lines.last()),
            line_id(lines.last()).unwrap(),
        )
    }
}

/// Whether the line with index `line` is the first of `lines` that gives no
/// identifier.
pub open spec fn first_fault(lines: Seq<Seq<char>>, line: int) -> bool {
    &&& 0 <= line < lines.len()
    &&& line_id(lines[line]) is None
    &&& forall|k: int| 0 <= k < line ==> line_id(#[trigger] lines[k]) is Some
}

/// The record of `token` with `id`: the token, a tab and the identifier in
/// decimal.
pub open spec fn record(token: Seq<char>, id: i32) -> Seq<char> {
    token + seq!['\t'] + decimal_text(id as int)
}

/// The line that stores `token` with `id`: their record and a line feed.
pub open spec fn entry_line(token: Seq<char>, id: i32) -> Seq<char> {
    record(token, id) + seq!['\n']
}

/// The record of each token of `order` with its identifier in `ids`.
pub open spec fn records(order: Seq<Seq<char>>, ids: Map<Seq<char>, i32>) -> Seq<Seq<char>> {
    Seq::new(order.len(), |i: int| record(order[i], ids[order[i]]))
}

/// The stored form of `ids`: the line of each token of `order`, in that
/// order.
pub open spec fn written(order: Seq<Seq<char>>, ids: Map<Seq<char>, i32>) -> Seq<char>
    decreases order.len(),
{
    if order.len() == 0 {
        Seq::empty()
    } else {
        written(order.drop_last(), ids) + entry_line(order.last(), ids[order.last()])
    }
}

/// A record of a storable token is one line, and gives the token and the
/// identifier back.
pub proof fn lemma_record_fields(token: Seq<char>, id: i32)
    requires
        storable(token),
    ensures
        record(token, id).len() > 0,
        record(token, id).last() != '\r',
        forall|k: int| 0 <= k < record(token, id).len() ==> record(token, id)[k] != '\n',
        token_field(record(token, id)) == token,
        line_id(record(token, id)) == Some(id),
{
    let d = decimal_text(id as int);
    let r = record(token, id);
    let n = token.len() as int;
    lemma_decimal_text_chars(id as int);
    lemma_decimal_round_trip(id);
    assert forall|k: int| 0 <= k < r.len() implies r[k] != '\n' by {
        if k > n {
            assert(r[k] == d[k - n - 1]);
        }
    }
    assert(r[n] == '\t');
    lemma_position_is(r, '\t', n);
    assert(r.take(n) =~= token);
    assert(r.skip(n + 1) =~= d);
    assert(r.last() == d.last());
}

/// A line with its line feed, added behind complete lines, is one more line.
pub proof fn lemma_lines_append(a: Seq<char>, line: Seq<char>)
    requires
        a.len() == 0 || a.last() == '\n',
        line.len() > 0,
        line.last() != '\r',
        forall|k: int| 0 <= k < line.len() ==> line[k] != '\n',
    ensures
        lines_of(a + line + seq!['\n']) == lines_of(a).push(line),
    decreases a.len(),
{
    let s = a + line + seq!['\n'];
    if a.len() == 0 {
        let n = line.len() as int;
        lemma_position_is(s, '\n', n);
        assert(s.take(n) =~= line);
        assert(s.skip(n + 1).len() == 0);
        assert(lines_of(s.skip(n + 1)) =~= Seq::<Seq<char>>::empty());
        assert(lines_of(s) =~= seq![line]);
        assert(lines_of(a).push(line) =~= seq![line]);
    } else {
        lemma_position_found(a, '\n');
        let m = position(a, '\n') as int;
        assert(m < a.len());
        assert forall|k: int| 0 <= k < m implies s[k] != '\n' by {
            assert(s[k] == a[k]);
        }
        assert(s[m] == a[m]);
        lemma_position_is(s, '\n', m);
        let rest = a.skip(m + 1);
        assert(s.take(m) =~= a.take(m));
        assert(s.skip(m + 1) =~= rest + line + seq!['\n']);
        if rest.len() > 0 {
            assert(rest.last() == a.last());
        }
        lemma_lines_append(rest, line);
        assert(lines_of(s) =~= lines_of(a).push(line));
    }
}

/// The lines of a stored form are the records of its tokens, where the
/// tokens are storable.
pub proof fn lemma_lines_of_written(order: Seq<Seq<char>>, ids: Map<Seq<char>, i32>)
    requires
        forall|i: int| 0 <= i < order.len() ==> storable(#[trigger] order[i]),
    ensures
        lines_of(written(order, ids)) == records(order, ids),
        written(order, ids).len() == 0 || written(order, ids).last() == '\n',
    decreases order.len(),
{
    if order.len() == 0 {
        assert(records(order, ids) =~= Seq::<Seq<char>>::empty());
    } else {
        let head = order.drop_last();
        let last = order.last();
        let before = written(head, ids);
        let r = record(last, ids[last]);
        assert forall|i: int| 0 <= i < head.len() implies storable(#[trigger] head[i]) by {
            assert(head[i] == order[i]);
        }
        lemma_lines_of_written(head, ids);
        assert(storable(order[order.len() - 1]));
        lemma_record_fields(last, ids[last]);
        assert(written(order, ids) =~= before + r + seq!['\n']);
        lemma_lines_append(before, r);
        assert(records(order, ids) =~= records(head, ids).push(r));
    }
}

/// The records of storable tokens describe a mapping that gives exactly
/// those tokens an identifier, each its own.
pub proof fn lemma_loaded_records(order: Seq<Seq<char>>, ids: Map<Seq<char>, i32>)
    requires
        forall|i: int| 0 <= i < order.len() ==> storable(#[trigger] order[i]),
    ensures
        loaded(records(order, ids)).dom() == order.to_set(),
        forall|t: Seq<char>|
            order.contains(t) ==> #[trigger] loaded(records(order, ids))[t] == ids[t],
        token_fields(records(order, ids)) == order,
        forall|k: int|
            0 <= k < order.len() ==> line_id(#[trigger] records(order, ids)[k]) is Some,
    decreases order.len(),
{
    let lines = records(order, ids);
    if order.len() == 0 {
        assert(loaded(lines).dom() =~= order.to_set());
        assert(token_fields(lines) =~= order);
    } else {
        let head = order.drop_last();
        let last = order.last();
        assert forall|i: int| 0 <= i < head.len() implies storable(#[trigger] head[i]) by {
            assert(head[i] == order[i]);
        }
        lemma_loaded_records(head, ids);
        assert(storable(order[order.len() - 1]));
        lemma_record_fields(last, ids[last]);
        assert(lines.drop_last() =~= records(head, ids));
        assert(lines.last() == record(last, ids[last]));
        assert(order =~= head.push(last));
        head.lemma_push_to_set_commute(last);
        assert(loaded(lines).dom() =~= order.to_set());
        assert forall|t: Seq<char>| order.contains(t) implies #[trigger] loaded(lines)[t]
            == ids[t] by {
            if t != last {
                assert(head.contains(t));
            }
        }
        assert forall|k: int| 0 <= k < order.len() implies line_id(#[trigger] lines[k])
            is Some by {
            if k < head.len() {
                assert(lines[k] == records(head, ids)[k]);
            }
        }
        assert(token_fields(lines) =~= token_fields(records(head, ids)).push(last));
    }
}

/// What is written of a vocabulary is read back as that vocabulary, where
/// its tokens are storable: every line gives an identifier, and the lines
/// describe the same mapping with the tokens in the same order.
pub proof fn lemma_written_is_restored(order: Seq<Seq<char>>, ids: Map<Seq<char>, i32>)
    requires
        order.no_duplicates(),
        ids.dom() == order.to_set(),
        forall|i: int| 0 <= i < order.len() ==> storable(#[trigger] order[i]),
    ensures
        forall|k: int|
            0 <= k < lines_of(written(order, ids)).len() ==> line_id(
                #[trigger] lines_of(written(order, ids))[k],
            ) is Some,
        loaded(lines_of(written(order, ids))) == ids,
        first_seen(token_fields(lines_of(written(order, ids)))) == order,
{
    lemma_lines_of_written(order, ids);
    lemma_loaded_records(order, ids);
    lemma_first_seen_of_distinct(order);
    let back = loaded(records(order, ids));
    assert forall|t: Seq<char>| back.dom().contains(t) implies #[trigger] back[t] == ids[t] by {
        assert(order.contains(t));
    }
    assert(back =~= ids);
}

/// A vocabulary built from a text is read back from what is written of it:
/// every line gives an identifier, and the lines describe the same mapping
/// with the tokens in the same order.
pub proof fn lemma_built_is_restored(text: Seq<char>, ids: Map<Seq<char>, i32>)
    requires
        is_numbering(ids, first_seen(tokens_of(text))),
    ensures
        forall|k: int|
            0 <= k < lines_of(written(first_seen(tokens_of(text)), ids)).len() ==> line_id(
                #[trigger] lines_of(written(first_seen(tokens_of(text)), ids))[k],
            ) is Some,
        loaded(lines_of(written(first_seen(tokens_of(text)), ids))) == ids,
        first_seen(token_fields(lines_of(written(first_seen(tokens_of(text)), ids))))
            == first_seen(tokens_of(text)),
{
    let tokens = tokens_of(text);
    let order = first_seen(tokens);
    lemma_first_seen_distinct(tokens);
    lemma_tokens_storable(text);
    assert forall|i: int| 0 <= i < order.len() implies storable(#[trigger] order[i]) by {
        assert(order.to_set().contains(order[i]));
        assert(tokens.contains(order[i]));
    }
    lemma_written_is_restored(order, ids);
}

} // verus!
