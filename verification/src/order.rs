//! The order in which the distinct tokens of a text first occur, and the
//! numbering that follows from it.

use vstd::prelude::*;

verus! {

/// The distinct texts of `tokens`, in the order in which each first occurs.
pub open spec fn first_seen(tokens: Seq<Seq<char>>) -> Seq<Seq<char>>
    decreases tokens.len(),
{
    if tokens.len() == 0 {
        Seq::empty()
    } else {
        let earlier = first_seen(tokens.drop_last());
        if earlier.contains(tokens.last()) {
            earlier
        } else {
            earlier.push(tokens.last())
        }
    }
}

/// Whether `ids` gives exactly the texts of `order` an identifier, and each
/// of them its index in `order`.
pub open spec fn is_numbering(ids: Map<Seq<char>, i32>, order: Seq<Seq<char>>) -> bool {
    &&& ids.dom() == order.to_set()
    &&& forall|i: int| 0 <= i < order.len() ==> ids[#[trigger] order[i]] == i
}

/// The largest number of tokens that a built vocabulary holds: one for each
/// identifier from zero up.
pub open spec fn capacity() -> int {
    0x8000_0000
}

/// The tokens in the order of first occurrence are the distinct tokens, each
/// once: as many as the tokens make as a set.
pub proof fn lemma_first_seen_distinct(tokens: Seq<Seq<char>>)
    ensures
        first_seen(tokens).no_duplicates(),
        first_seen(tokens).to_set() == tokens.to_set(),
        first_seen(tokens).len() == tokens.to_set().len(),
    decreases tokens.len(),
{
    if tokens.len() == 0 {
        assert(first_seen(tokens).to_set() =~= tokens.to_set());
    } else {
        let head = tokens.drop_last();
        let last = tokens.last();
        let earlier = first_seen(head);
        lemma_first_seen_distinct(head);
        assert(tokens =~= head.push(last));
        head.lemma_push_to_set_commute(last);
        if earlier.contains(last) {
            assert(head.to_set().insert(last) =~= head.to_set());
        } else {
            earlier.lemma_push_to_set_commute(last);
        }
    }
    first_seen(tokens).unique_seq_to_set();
}

/// The distinct tokens of a part of a text are no more than those of the
/// whole.
pub proof fn lemma_first_seen_grows(tokens: Seq<Seq<char>>, n: int)
    requires
        0 <= n <= tokens.len(),
    ensures
        first_seen(tokens.take(n)).len() <= first_seen(tokens).len(),
    decreases tokens.len() - n,
{
    if n == tokens.len() {
        assert(tokens.take(n) =~= tokens);
    } else {
        assert(tokens.take(n + 1).drop_last() =~= tokens.take(n));
        lemma_first_seen_grows(tokens, n + 1);
    }
}

/// Texts that are all different are their own order of first occurrence.
pub proof fn lemma_first_seen_of_distinct(order: Seq<Seq<char>>)
    requires
        order.no_duplicates(),
    ensures
        first_seen(order) == order,
    decreases order.len(),
{
    if order.len() > 0 {
        let head = order.drop_last();
        lemma_first_seen_of_distinct(head);
        assert(!head.contains(order.last()));
        assert(head.push(order.last()) =~= order);
    }
}

} // verus!
