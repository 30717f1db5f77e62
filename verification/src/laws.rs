//! What holds of writing a container out and reading it back.

use crate::linear_map::{collected, distinct_keys, lemma_collected_of_distinct, LinearMap};
use crate::linear_set::{gathered, lemma_gathered_of_distinct, LinearSet};
use crate::reader::{lemma_map_misfit, lemma_seq_misfit};
use crate::token::{
    is_map_stream, is_seq_stream, map_encoding, map_frame, map_pairs, map_stream_breaks_at,
    map_token_fits, seq_encoding, seq_frame, seq_items, seq_stream_breaks_at, seq_token_fits,
    MapToken, SeqToken,
};
use vstd::prelude::*;

verus! {

/// A bracketed form is a map whatever size it announces, and its pairs are
/// those it was made of, in their order.
pub proof fn lemma_map_frame_reads_back<K, V>(hint: Option<usize>, pairs: Seq<(K, V)>)
    ensures
        is_map_stream(map_frame(hint, pairs)),
        map_pairs(map_frame(hint, pairs)) == pairs,
{
    assert(map_pairs(map_frame(hint, pairs)) =~= pairs);
}

/// A map that is not the unit value is the bracketed form of its own pairs,
/// with the size that it announces.
pub proof fn lemma_map_stream_is_frame<K, V>(tokens: Seq<MapToken<K, V>>)
    requires
        is_map_stream(tokens),
        tokens.len() >= 2,
    ensures
        tokens == map_frame(tokens[0]->Start_0, map_pairs(tokens)),
{
    let frame = map_frame(tokens[0]->Start_0, map_pairs(tokens));
    assert(frame.len() == tokens.len());
    assert forall|i: int| 0 <= i < tokens.len() implies tokens[i] == frame[i] by {
        if 0 < i < tokens.len() - 1 {
            if i % 2 == 1 {
                assert(tokens[i] is Key && 2 * ((i - 1) / 2) + 1 == i);
            } else {
                assert(tokens[i] is Value && 2 * ((i - 2) / 2) + 2 == i);
            }
        }
    }
    assert(tokens =~= frame);
}

/// Reading back what a map was written as gives the map: the same entries
/// in the same order.
pub proof fn lemma_map_round_trip<K, V>(map: LinearMap<K, V>)
    requires
        map.wf(),
    ensures
        is_map_stream(map_encoding(map@)),
        collected(map_pairs(map_encoding(map@))) == map@,
{
    lemma_map_frame_reads_back(Some(map@.len() as usize), map@);
    lemma_collected_of_distinct(map@);
}

/// The announced size has no part in what is read: two bracketed forms of
/// the same pairs give the same map.
pub proof fn lemma_map_hint_ignored<K, V>(
    hint: Option<usize>,
    other: Option<usize>,
    pairs: Seq<(K, V)>,
)
    ensures
        is_map_stream(map_frame(hint, pairs)),
        is_map_stream(map_frame(other, pairs)),
        collected(map_pairs(map_frame(hint, pairs))) == collected(
            map_pairs(map_frame(other, pairs)),
        ),
{
    lemma_map_frame_reads_back(hint, pairs);
    lemma_map_frame_reads_back(other, pairs);
}

/// The empty map is written as an opening that announces no entry and a
/// closing; that form, with any announced size, and the unit value alone
/// are both read as the empty map.
pub proof fn lemma_empty_map_forms<K, V>(hint: Option<usize>)
    ensures
        map_encoding(Seq::<(K, V)>::empty()) == seq![
            MapToken::<K, V>::Start(Some(0usize)),
            MapToken::<K, V>::End,
        ],
        is_map_stream(seq![MapToken::<K, V>::Start(hint), MapToken::<K, V>::End]),
        collected(map_pairs(seq![MapToken::<K, V>::Start(hint), MapToken::<K, V>::End]))
            == Seq::<(K, V)>::empty(),
        is_map_stream(seq![MapToken::<K, V>::Unit]),
        collected(map_pairs(seq![MapToken::<K, V>::Unit])) == Seq::<(K, V)>::empty(),
{
    let none = Seq::<(K, V)>::empty();
    let bracketed = seq![MapToken::<K, V>::Start(hint), MapToken::<K, V>::End];
    assert(map_encoding(none) =~= seq![
        MapToken::<K, V>::Start(Some(0usize)),
        MapToken::<K, V>::End,
    ]);
    assert(bracketed =~= map_frame(hint, none));
    assert(map_pairs(bracketed) =~= none);
    assert(map_pairs(seq![MapToken::<K, V>::Unit]) =~= none);
}

/// Entries are written in the order of the map: the entry at `at` stands
/// as the pair at `at` of what is written, key first.
pub proof fn lemma_map_written_in_order<K, V>(entries: Seq<(K, V)>, at: int)
    requires
        0 <= at < entries.len(),
    ensures
        map_encoding(entries)[2 * at + 1] == MapToken::<K, V>::Key(entries[at].0),
        map_encoding(entries)[2 * at + 2] == MapToken::<K, V>::Value(entries[at].1),
        map_pairs(map_encoding(entries))[at] == entries[at],
{
    assert((2 * at + 1) % 2 == 1 && (2 * at + 1 - 1) / 2 == at);
    assert((2 * at + 2) % 2 == 0 && (2 * at + 2 - 2) / 2 == at);
}

/// Entries are read in the order of the stream: pairs with distinct keys
/// come to stand in the map in the places in which they arrive.
pub proof fn lemma_map_read_in_order<K, V>(hint: Option<usize>, pairs: Seq<(K, V)>)
    requires
        distinct_keys(pairs),
    ensures
        is_map_stream(map_frame(hint, pairs)),
        collected(map_pairs(map_frame(hint, pairs))) == pairs,
{
    lemma_map_frame_reads_back(hint, pairs);
    lemma_collected_of_distinct(pairs);
}

/// A stream of events stops being a map at one place at most, and a map
/// stops nowhere: the place at which a stream is refused is determined.
pub proof fn lemma_map_break_is_determined<K, V>(tokens: Seq<MapToken<K, V>>, at: int, other: int)
    requires
        map_stream_breaks_at(tokens, at),
        map_stream_breaks_at(tokens, other),
    ensures
        at == other,
        !is_map_stream(tokens),
{
    if at < other {
        assert(map_token_fits(tokens, at));
    } else if other < at {
        assert(map_token_fits(tokens, other));
    }
    if at < tokens.len() {
        lemma_map_misfit(tokens, at);
    }
}

/// A bracketed form is a sequence whatever size it announces, and its
/// elements are those it was made of, in their order.
pub proof fn lemma_seq_frame_reads_back<T>(hint: Option<usize>, items: Seq<T>)
    ensures
        is_seq_stream(seq_frame(hint, items)),
        seq_items(seq_frame(hint, items)) == items,
{
    assert(seq_items(seq_frame(hint, items)) =~= items);
}

/// A sequence that is not the unit value is the bracketed form of its own
/// elements, with the size that it announces.
pub proof fn lemma_seq_stream_is_frame<T>(tokens: Seq<SeqToken<T>>)
    requires
        is_seq_stream(tokens),
        tokens.len() >= 2,
    ensures
        tokens == seq_frame(tokens[0]->Start_0, seq_items(tokens)),
{
    let frame = seq_frame(tokens[0]->Start_0, seq_items(tokens));
    assert forall|i: int| 0 <= i < tokens.len() implies tokens[i] == frame[i] by {
        if 0 < i < tokens.len() - 1 {
            assert(tokens[i] is Element);
        }
    }
    assert(tokens =~= frame);
}

/// Reading back what a set was written as gives the set: the same elements
/// in the same order.
pub proof fn lemma_set_round_trip<T>(set: LinearSet<T>)
    requires
        set.wf(),
    ensures
        is_seq_stream(seq_encoding(set@)),
        gathered(seq_items(seq_encoding(set@))) == set@,
{
    lemma_seq_frame_reads_back(Some(set@.len() as usize), set@);
    lemma_gathered_of_distinct(set@);
}

/// The announced size has no part in what is read: two bracketed forms of
/// the same elements give the same set.
pub proof fn lemma_set_hint_ignored<T>(hint: Option<usize>, other: Option<usize>, items: Seq<T>)
    ensures
        is_seq_stream(seq_frame(hint, items)),
        is_seq_stream(seq_frame(other, items)),
        gathered(seq_items(seq_frame(hint, items))) == gathered(
            seq_items(seq_frame(other, items)),
        ),
{
    lemma_seq_frame_reads_back(hint, items);
    lemma_seq_frame_reads_back(other, items);
}

/// The empty set is written as an opening that announces no element and a
/// closing; that form, with any announced size, and the unit value alone
/// are both read as the empty set.
pub proof fn lemma_empty_set_forms<T>(hint: Option<usize>)
    ensures
        seq_encoding(Seq::<T>::empty()) == seq![
            SeqToken::<T>::Start(Some(0usize)),
            SeqToken::<T>::End,
        ],
        is_seq_stream(seq![SeqToken::<T>::Start(hint), SeqToken::<T>::End]),
        gathered(seq_items(seq![SeqToken::<T>::Start(hint), SeqToken::<T>::End])) == Seq::<
            T,
        >::empty(),
        is_seq_stream(seq![SeqToken::<T>::Unit]),
        gathered(seq_items(seq![SeqToken::<T>::Unit])) == Seq::<T>::empty(),
{
    let none = Seq::<T>::empty();
    let bracketed = seq![SeqToken::<T>::Start(hint), SeqToken::<T>::End];
    assert(seq_encoding(none) =~= seq![SeqToken::<T>::Start(Some(0usize)), SeqToken::<T>::End]);
    assert(bracketed =~= seq_frame(hint, none));
    assert(seq_items(bracketed) =~= none);
    assert(seq_items(seq![SeqToken::<T>::Unit]) =~= none);
}

/// Elements are written in the order of the set: the element at `at`
/// stands as the element at `at` of what is written.
pub proof fn lemma_set_written_in_order<T>(items: Seq<T>, at: int)
    requires
        0 <= at < items.len(),
    ensures
        seq_encoding(items)[at + 1] == SeqToken::<T>::Element(items[at]),
        seq_items(seq_encoding(items))[at] == items[at],
{
}

/// Elements are read in the order of the stream: distinct elements come to
/// stand in the set in the places in which they arrive.
pub proof fn lemma_set_read_in_order<T>(hint: Option<usize>, items: Seq<T>)
    requires
        items.no_duplicates(),
    ensures
        is_seq_stream(seq_frame(hint, items)),
        gathered(seq_items(seq_frame(hint, items))) == items,
{
    lemma_seq_frame_reads_back(hint, items);
    lemma_gathered_of_distinct(items);
}

/// A stream of events stops being a sequence at one place at most, and a
/// sequence stops nowhere: the place at which a stream is refused is
/// determined.
pub proof fn lemma_seq_break_is_determined<T>(tokens: Seq<SeqToken<T>>, at: int, other: int)
    requires
        seq_stream_breaks_at(tokens, at),
        seq_stream_breaks_at(tokens, other),
    ensures
        at == other,
        !is_seq_stream(tokens),
{
    if at < other {
        assert(seq_token_fits(tokens, at));
    } else if other < at {
        assert(seq_token_fits(tokens, other));
    }
    if at < tokens.len() {
        lemma_seq_misfit(tokens, at);
    }
}

} // verus!
