//! The events that a container exchanges with a serialization framework.

use vstd::prelude::*;

verus! {

/// One event of a map-shaped stream.
#[derive(Debug, PartialEq, Eq)]
pub enum MapToken<K, V> {
    /// The whole container, written as the unit value: an empty map.
    Unit,
    /// The opening of a map, with the number of entries that are announced.
    Start(Option<usize>),
    /// The key of the next entry.
    Key(K),
    /// The value of the entry whose key came just before.
    Value(V),
    /// The closing of the map.
    End,
}

/// The bracketed form of a map: the opening with the announced size
/// `hint`, then key and value of each of `pairs` in order, then the closing.
pub open spec fn map_frame<K, V>(hint: Option<usize>, pairs: Seq<(K, V)>) -> Seq<MapToken<K, V>> {
    Seq::new(
        2 * pairs.len() + 2,
        |i: int|
            if i == 0 {
                MapToken::Start(hint)
            } else if i == 2 * pairs.len() + 1 {
                MapToken::End
            } else if i % 2 == 1 {
                MapToken::Key(pairs[(i - 1) / 2].0)
            } else {
                MapToken::Value(pairs[(i - 2) / 2].1)
            },
    )
}

/// The events that stand for `entries`: their bracketed form, announced
/// with their number.
pub open spec fn map_encoding<K, V>(entries: Seq<(K, V)>) -> Seq<MapToken<K, V>> {
    map_frame(Some(entries.len() as usize), entries)
}

/// The pairs between the first and the last event of `tokens`: key and
/// value are taken from every two events in turn.
pub open spec fn map_pairs<K, V>(tokens: Seq<MapToken<K, V>>) -> Seq<(K, V)> {
    Seq::new(
        if tokens.len() >= 2 {
            ((tokens.len() - 2) / 2) as nat
        } else {
            0
        },
        |i: int| (tokens[2 * i + 1]->Key_0, tokens[2 * i + 2]->Value_0),
    )
}

/// `tokens` is a whole map: the unit value alone, or an opening, keys and
/// values in turn, and a closing.
pub open spec fn is_map_stream<K, V>(tokens: Seq<MapToken<K, V>>) -> bool {
    ||| tokens.len() == 1 && tokens[0] is Unit
    ||| {
        &&& tokens.len() >= 2
        &&& tokens.len() % 2 == 0
        &&& tokens[0] is Start
        &&& tokens[tokens.len() - 1] is End
        &&& forall|i: int|
            0 < i < tokens.len() - 1 ==> if i % 2 == 1 {
                (#[trigger] tokens[i]) is Key
            } else {
                tokens[i] is Value
            }
    }
}

/// The event at `at` can stand there in a map of which the events before it
/// are the beginning.
pub open spec fn map_token_fits<K, V>(tokens: Seq<MapToken<K, V>>, at: int) -> bool
    recommends
        0 <= at < tokens.len(),
{
    if at == 0 {
        tokens[0] is Unit || tokens[0] is Start
    } else if tokens[0] is Unit || tokens[at - 1] is End {
        false
    } else if at % 2 == 1 {
        tokens[at] is Key || tokens[at] is End
    } else {
        tokens[at] is Value
    }
}

/// `tokens` stops being a map at `at`: the events before `at` fit, and the
/// event at `at` does not, or is missing where the map is not yet whole.
pub open spec fn map_stream_breaks_at<K, V>(tokens: Seq<MapToken<K, V>>, at: int) -> bool {
    &&& 0 <= at <= tokens.len()
    &&& forall|i: int| 0 <= i < at ==> map_token_fits(tokens, i)
    &&& at < tokens.len() ==> !map_token_fits(tokens, at)
    &&& at == tokens.len() ==> !is_map_stream(tokens)
}

/// The error of the reader of events: the stream does not have the shape of
/// the container from the event at `position` on.
#[derive(Debug, Clone, Copy, PartialEq, Eq)]
pub struct TokenError {
    /// The index of the first event that does not fit, or the number of
    /// events where the stream ends too early.
    pub position: usize,
}

/// The event that a borrowed event stands for.
pub open spec fn lent_map_token<K, V>(token: MapToken<&K, &V>) -> MapToken<K, V> {
    match token {
        MapToken::Unit => MapToken::Unit,
        MapToken::Start(n) => MapToken::Start(n),
        MapToken::Key(k) => MapToken::Key(*k),
        MapToken::Value(v) => MapToken::Value(*v),
        MapToken::End => MapToken::End,
    }
}

/// One event of a sequence-shaped stream.
#[derive(Debug, PartialEq, Eq)]
pub enum SeqToken<T> {
    /// The whole container, written as the unit value: an empty set.
    Unit,
    /// The opening of a sequence, with the number of elements that are
    /// announced.
    Start(Option<usize>),
    /// The next element.
    Element(T),
    /// The closing of the sequence.
    End,
}

/// The bracketed form of a sequence: the opening with the announced size
/// `hint`, then each of `items` in order, then the closing.
pub open spec fn seq_frame<T>(hint: Option<usize>, items: Seq<T>) -> Seq<SeqToken<T>> {
    Seq::new(
        items.len() + 2,
        |i: int|
            if i == 0 {
                SeqToken::Start(hint)
            } else if i == items.len() + 1 {
                SeqToken::End
            } else {
                SeqToken::Element(items[i - 1])
            },
    )
}

/// The events that stand for `items`: their bracketed form, announced with
/// their number.
pub open spec fn seq_encoding<T>(items: Seq<T>) -> Seq<SeqToken<T>> {
    seq_frame(Some(items.len() as usize), items)
}

/// The elements between the first and the last event of `tokens`.
pub open spec fn seq_items<T>(tokens: Seq<SeqToken<T>>) -> Seq<T> {
    Seq::new(
        if tokens.len() >= 2 {
            (tokens.len() - 2) as nat
        } else {
            0
        },
        |i: int| tokens[i + 1]->Element_0,
    )
}

/// `tokens` is a whole sequence: the unit value alone, or an opening,
/// elements, and a closing.
pub open spec fn is_seq_stream<T>(tokens: Seq<SeqToken<T>>) -> bool {
    ||| tokens.len() == 1 && tokens[0] is Unit
    ||| {
        &&& tokens.len() >= 2
        &&& tokens[0] is Start
        &&& tokens[tokens.len() - 1] is End
        &&& forall|i: int| 0 < i < tokens.len() - 1 ==> (#[trigger] tokens[i]) is Element
    }
}

/// The event at `at` can stand there in a sequence of which the events
/// before it are the beginning.
pub open spec fn seq_token_fits<T>(tokens: Seq<SeqToken<T>>, at: int) -> bool
    recommends
        0 <= at < tokens.len(),
{
    if at == 0 {
        tokens[0] is Unit || tokens[0] is Start
    } else if tokens[0] is Unit || tokens[at - 1] is End {
        false
    } else {
        tokens[at] is Element || tokens[at] is End
    }
}

/// `tokens` stops being a sequence at `at`: the events before `at` fit, and
/// the event at `at` does not, or is missing where the sequence is not yet
/// whole.
pub open spec fn seq_stream_breaks_at<T>(tokens: Seq<SeqToken<T>>, at: int) -> bool {
    &&& 0 <= at <= tokens.len()
    &&& forall|i: int| 0 <= i < at ==> seq_token_fits(tokens, i)
    &&& at < tokens.len() ==> !seq_token_fits(tokens, at)
    &&& at == tokens.len() ==> !is_seq_stream(tokens)
}

/// The event that a borrowed event stands for.
pub open spec fn lent_seq_token<T>(token: SeqToken<&T>) -> SeqToken<T> {
    match token {
        SeqToken::Unit => SeqToken::Unit,
        SeqToken::Start(n) => SeqToken::Start(n),
        SeqToken::Element(item) => SeqToken::Element(*item),
        SeqToken::End => SeqToken::End,
    }
}

} // verus!
