//! What a framework hands to a visitor while it reads a container.

use vstd::prelude::*;

verus! {

/// The error of a framework that failed while it read a stream, handed on
/// as it came.
#[derive(Debug, PartialEq, Eq)]
pub struct DecodeError<E>(pub E);

/// The error of a framework that failed while it wrote a stream, handed on
/// as it came.
#[derive(Debug, PartialEq, Eq)]
pub struct EncodeError<E>(pub E);

/// The answers of a framework to a visitor that reads an opened map: the
/// size it announces, what each request for the next entry gives until the
/// entries run out, and what the request to close the map gives.
pub struct MapAccess<K, V, E> {
    /// The number of entries that the framework announces, if it does.
    pub hint: Option<usize>,
    /// The answers to the requests for the next entry, in order.
    pub fetches: Vec<Result<(K, V), E>>,
    /// The answer to the request to close the map.
    pub closing: Result<(), E>,
}

/// What a framework presents to the visitor of a map: the unit value, or
/// an opened map.
pub enum MapInput<K, V, E> {
    /// The unit value.
    Unit,
    /// A map that was opened, with the answers that follow.
    Opened(MapAccess<K, V, E>),
}

/// The answers of a framework to a visitor that reads an opened sequence:
/// the size it announces, what each request for the next element gives
/// until the elements run out, and what the request to close the sequence
/// gives.
pub struct SeqAccess<T, E> {
    /// The number of elements that the framework announces, if it does.
    pub hint: Option<usize>,
    /// The answers to the requests for the next element, in order.
    pub fetches: Vec<Result<T, E>>,
    /// The answer to the request to close the sequence.
    pub closing: Result<(), E>,
}

/// What a framework presents to the visitor of a set: the unit value, or an
/// opened sequence.
pub enum SeqInput<T, E> {
    /// The unit value.
    Unit,
    /// A sequence that was opened, with the answers that follow.
    Opened(SeqAccess<T, E>),
}

/// Every answer in `fetches` is an item.
pub open spec fn all_fetched<T, E>(fetches: Seq<Result<T, E>>) -> bool {
    forall|i: int| 0 <= i < fetches.len() ==> (#[trigger] fetches[i]) is Ok
}

/// The answer at `at` is the first failure among `fetches`.
pub open spec fn fails_first_at<T, E>(fetches: Seq<Result<T, E>>, at: int) -> bool {
    &&& 0 <= at < fetches.len()
    &&& fetches[at] is Err
    &&& all_fetched(fetches.take(at))
}

/// The items that `fetches` gave, in order.
pub open spec fn fetched<T, E>(fetches: Seq<Result<T, E>>) -> Seq<T>
    recommends
        all_fetched(fetches),
{
    Seq::new(fetches.len(), |i: int| fetches[i]->Ok_0)
}

/// The answers up to the last are items, and the last is the failure `e`.
pub open spec fn ends_in_failure<T, E>(fetches: Seq<Result<T, E>>, e: E) -> bool {
    &&& fetches.len() > 0
    &&& all_fetched(fetches.drop_last())
    &&& fetches.last() == Err::<T, E>(e)
}

} // verus!
