//! Building a container from what a framework read.

use crate::access::{
    all_fetched, ends_in_failure, fails_first_at, fetched, DecodeError, MapAccess, MapInput,
    SeqAccess, SeqInput,
};
use crate::linear_map::{collected, with_entry, LinearMap};
use crate::linear_set::{gathered, with_item, LinearSet};
use crate::reader::{read_map, read_seq};
use crate::token::{
    is_map_stream, is_seq_stream, map_pairs, map_stream_breaks_at, seq_items,
    seq_stream_breaks_at, MapToken, SeqToken, TokenError,
};
use core::marker::PhantomData;
use vstd::laws_eq::obeys_concrete_eq;
use vstd::prelude::*;

verus! {

/// The visitor that a framework calls back to build a `LinearMap`.
pub struct LinearMapVisitor<K, V> {
    marker: PhantomData<LinearMap<K, V>>,
}

impl<K, V> LinearMapVisitor<K, V> {
    /// A visitor; it holds nothing.
    pub fn new() -> (visitor: Self) {
        LinearMapVisitor { marker: PhantomData }
    }

    /// The stream was the unit value: the map is empty.
    pub fn visit_unit<E>(&mut self) -> (result: Result<LinearMap<K, V>, DecodeError<E>>)
        ensures
            *final(self) == *old(self),
            result is Ok,
            result->Ok_0.wf(),
            result->Ok_0@ == Seq::<(K, V)>::empty(),
    {
        Ok(LinearMap::new())
    }

    /// The stream opened a map: an empty map to read the entries into. The
    /// announced size sets room aside and decides nothing else.
    pub fn open(&mut self, hint: Option<usize>) -> (values: LinearMap<K, V>)
        ensures
            *final(self) == *old(self),
            values.wf(),
            values@ == Seq::<(K, V)>::empty(),
    {
        match hint {
            Some(announced) => LinearMap::with_capacity(announced),
            None => LinearMap::new(),
        }
    }

    /// Takes the answer to one request for the next entry. An entry goes
    /// into `values` and more are to be asked for (`true`); when the entries
    /// have run out the map is to be closed (`false`); a failure is handed
    /// on as it came.
    pub fn absorb<E>(
        &mut self,
        values: &mut LinearMap<K, V>,
        fetch: Result<Option<(K, V)>, E>,
    ) -> (more: Result<bool, DecodeError<E>>) where K: PartialEq
        requires
            old(values).wf(),
            obeys_concrete_eq::<K>(),
        ensures
            *final(self) == *old(self),
            final(values).wf(),
            match fetch {
                Ok(Some(pair)) => more == Ok::<bool, DecodeError<E>>(true) && final(values)@
                    == with_entry(old(values)@, pair.0, pair.1),
                Ok(None) => more == Ok::<bool, DecodeError<E>>(false) && final(values)@ == old(
                    values,
                )@,
                Err(e) => more == Err::<bool, DecodeError<E>>(DecodeError(e)) && final(values)@
                    == old(values)@,
            },
    {
        match fetch {
            Ok(Some((key, value))) => {
                values.insert(key, value);
                Ok(true)
            },
            Ok(None) => Ok(false),
            Err(e) => Err(DecodeError(e)),
        }
    }

    /// Takes the answer to the request to close the map: the map that was
    /// read, or the failure as it came.
    pub fn close<E>(&mut self, values: LinearMap<K, V>, closing: Result<(), E>) -> (result: Result<
        LinearMap<K, V>,
        DecodeError<E>,
    >)
        ensures
            *final(self) == *old(self),
            match closing {
                Ok(_) => result == Ok::<LinearMap<K, V>, DecodeError<E>>(values),
                Err(e) => result == Err::<LinearMap<K, V>, DecodeError<E>>(DecodeError(e)),
            },
    {
        match closing {
            Ok(()) => Ok(values),
            Err(e) => Err(DecodeError(e)),
        }
    }

    /// The stream was an opened map: inserts the entries in the order in
    /// which they arrive and closes the map. The first failure, of an entry
    /// or of the closing, ends the reading and is handed on; the announced
    /// size decides nothing.
    pub fn visit_map<E>(&mut self, access: MapAccess<K, V, E>) -> (result: Result<
        LinearMap<K, V>,
        DecodeError<E>,
    >) where K: PartialEq
        requires
            obeys_concrete_eq::<K>(),
        ensures
            *final(self) == *old(self),
            result is Ok <==> all_fetched(access.fetches@) && access.closing is Ok,
            result is Ok ==> result->Ok_0.wf() && result->Ok_0@ == collected(
                fetched(access.fetches@),
            ),
            result is Err ==> (exists|at: int|
                fails_first_at(access.fetches@, at) && access.fetches@[at] == Err::<(K, V), E>(
                    result->Err_0.0,
                )) || (all_fetched(access.fetches@) && access.closing == Err::<(), E>(
                result->Err_0.0,
            )),
    {
        let MapAccess { hint, fetches, closing } = access;
        let mut values = self.open(hint);
        let ghost answers = fetches@;
        for fetch in it: fetches
            invariant
                obeys_concrete_eq::<K>(),
                it.seq() == answers,
                answers == access.fetches@,
                values.wf(),
                all_fetched(answers.take(it.index())),
                values@ == collected(fetched(answers.take(it.index()))),
        {
            let ghost at = it.index();
            let ghost before = answers.take(at);
            let ghost after = answers.take(at + 1);
            assert(fetch == answers[at]);
            let answer = match fetch {
                Ok(pair) => Ok(Some(pair)),
                Err(e) => Err(e),
            };
            match self.absorb(&mut values, answer) {
                Ok(_) => {
                    proof {
                        assert forall|i: int| 0 <= i < after.len() implies (
                        #[trigger] after[i]) is Ok by {
                            if i < at {
                                assert(before[i] is Ok);
                            }
                        }
                        assert(fetched(after).drop_last() =~= fetched(before));
                        assert(fetched(after).last() == fetch->Ok_0);
                    }
                },
                Err(e) => {
                    assert(fails_first_at(answers, at));
                    return Err(e);
                },
            }
        }
        proof {
            assert(answers.take(answers.len() as int) =~= answers);
        }
        self.close(values, closing)
    }
}

/// Among answers that end in a failure, the first failure is the last answer.
proof fn lemma_failure_is_last<T, E>(fetches: Seq<Result<T, E>>, e: E, at: int)
    requires
        ends_in_failure(fetches, e),
        fails_first_at(fetches, at),
    ensures
        at == fetches.len() - 1,
        fetches[at] == Err::<T, E>(e),
{
    if at < fetches.len() - 1 {
        assert(fetches.drop_last()[at] is Ok);
    }
}

impl<K, V> LinearMap<K, V> {
    /// Reads a map from a stream of events: the unit value alone gives the
    /// empty map, a bracketed form the map into which its pairs were
    /// inserted in order. Any other stream is refused at the place where it
    /// stops being a map.
    pub fn deserialize(tokens: Vec<MapToken<K, V>>) -> (result: Result<
        LinearMap<K, V>,
        DecodeError<TokenError>,
    >) where K: PartialEq
        requires
            obeys_concrete_eq::<K>(),
        ensures
            result is Ok <==> is_map_stream(tokens@),
            result is Ok ==> result->Ok_0.wf() && result->Ok_0@ == collected(map_pairs(tokens@)),
            result is Err ==> map_stream_breaks_at(tokens@, result->Err_0.0.position as int),
    {
        let mut visitor = LinearMapVisitor::new();
        match read_map(tokens) {
            Err(e) => Err(DecodeError(e)),
            Ok(MapInput::Unit) => {
                assert(map_pairs(tokens@) =~= Seq::<(K, V)>::empty());
                visitor.visit_unit()
            },
            Ok(MapInput::Opened(access)) => {
                let ghost answers = access.fetches@;
                let ghost closing = access.closing;
                let result = visitor.visit_map(access);
                proof {
                    if !is_map_stream(tokens@) {
                        let p = choose|p: int|
                            #![trigger map_stream_breaks_at(tokens@, p)]
                            {
                                &&& 0 <= p <= usize::MAX
                                &&& map_stream_breaks_at(tokens@, p)
                                &&& {
                                    let e = TokenError { position: p as usize };
                                    ||| ends_in_failure(answers, e)
                                    ||| all_fetched(answers) && closing == Err::<(), TokenError>(e)
                                }
                            };
                        let e = TokenError { position: p as usize };
                        if ends_in_failure(answers, e) {
                            assert(answers[answers.len() - 1] is Err);
                            let at = choose|at: int|
                                fails_first_at(answers, at) && answers[at] == Err::<
                                    (K, V),
                                    TokenError,
                                >(result->Err_0.0);
                            lemma_failure_is_last(answers, e, at);
                        }
                    }
                }
                result
            },
        }
    }
}

/// The visitor that a framework calls back to build a `LinearSet`.
pub struct LinearSetVisitor<T> {
    marker: PhantomData<LinearSet<T>>,
}

impl<T> LinearSetVisitor<T> {
    /// A visitor; it holds nothing.
    pub fn new() -> (visitor: Self) {
        LinearSetVisitor { marker: PhantomData }
    }

    /// The stream was the unit value: the set is empty.
    pub fn visit_unit<E>(&mut self) -> (result: Result<LinearSet<T>, DecodeError<E>>)
        ensures
            *final(self) == *old(self),
            result is Ok,
            result->Ok_0.wf(),
            result->Ok_0@ == Seq::<T>::empty(),
    {
        Ok(LinearSet::new())
    }

    /// The stream opened a sequence: an empty set to read the elements
    /// into. The announced size sets room aside and decides nothing else.
    pub fn open(&mut self, hint: Option<usize>) -> (values: LinearSet<T>)
        ensures
            *final(self) == *old(self),
            values.wf(),
            values@ == Seq::<T>::empty(),
    {
        match hint {
            Some(announced) => LinearSet::with_capacity(announced),
            None => LinearSet::new(),
        }
    }

    /// Takes the answer to one request for the next element. An element
    /// goes into `values` and more are to be asked for (`true`); when the
    /// elements have run out the sequence is to be closed (`false`); a
    /// failure is handed on as it came.
    pub fn absorb<E>(&mut self, values: &mut LinearSet<T>, fetch: Result<Option<T>, E>) -> (more:
        Result<bool, DecodeError<E>>) where T: PartialEq
        requires
            old(values).wf(),
            obeys_concrete_eq::<T>(),
        ensures
            *final(self) == *old(self),
            final(values).wf(),
            match fetch {
                Ok(Some(item)) => more == Ok::<bool, DecodeError<E>>(true) && final(values)@
                    == with_item(old(values)@, item),
                Ok(None) => more == Ok::<bool, DecodeError<E>>(false) && final(values)@ == old(
                    values,
                )@,
                Err(e) => more == Err::<bool, DecodeError<E>>(DecodeError(e)) && final(values)@
                    == old(values)@,
            },
    {
        match fetch {
            Ok(Some(item)) => {
                values.insert(item);
                Ok(true)
            },
            Ok(None) => Ok(false),
            Err(e) => Err(DecodeError(e)),
        }
    }

    /// Takes the answer to the request to close the sequence: the set that
    /// was read, or the failure as it came.
    pub fn close<E>(&mut self, values: LinearSet<T>, closing: Result<(), E>) -> (result: Result<
        LinearSet<T>,
        DecodeError<E>,
    >)
        ensures
            *final(self) == *old(self),
            match closing {
                Ok(_) => result == Ok::<LinearSet<T>, DecodeError<E>>(values),
                Err(e) => result == Err::<LinearSet<T>, DecodeError<E>>(DecodeError(e)),
            },
    {
        match closing {
            Ok(()) => Ok(values),
            Err(e) => Err(DecodeError(e)),
        }
    }

    /// The stream was an opened sequence: inserts the elements in the order
    /// in which they arrive and closes the sequence. The first failure, of
    /// an element or of the closing, ends the reading and is handed on; the
    /// announced size decides nothing.
    pub fn visit_seq<E>(&mut self, access: SeqAccess<T, E>) -> (result: Result<
        LinearSet<T>,
        DecodeError<E>,
    >) where T: PartialEq
        requires
            obeys_concrete_eq::<T>(),
        ensures
            *final(self) == *old(self),
            result is Ok <==> all_fetched(access.fetches@) && access.closing is Ok,
            result is Ok ==> result->Ok_0.wf() && result->Ok_0@ == gathered(
                fetched(access.fetches@),
            ),
            result is Err ==> (exists|at: int|
                fails_first_at(access.fetches@, at) && access.fetches@[at] == Err::<T, E>(
                    result->Err_0.0,
                )) || (all_fetched(access.fetches@) && access.closing == Err::<(), E>(
                result->Err_0.0,
            )),
    {
        let SeqAccess { hint, fetches, closing } = access;
        let mut values = self.open(hint);
        let ghost answers = fetches@;
        for fetch in it: fetches
            invariant
                obeys_concrete_eq::<T>(),
                it.seq() == answers,
                answers == access.fetches@,
                values.wf(),
                all_fetched(answers.take(it.index())),
                values@ == gathered(fetched(answers.take(it.index()))),
        {
            let ghost at = it.index();
            let ghost before = answers.take(at);
            let ghost after = answers.take(at + 1);
            assert(fetch == answers[at]);
            let answer = match fetch {
                Ok(item) => Ok(Some(item)),
                Err(e) => Err(e),
            };
            match self.absorb(&mut values, answer) {
                Ok(_) => {
                    proof {
                        assert forall|i: int| 0 <= i < after.len() implies (
                        #[trigger] after[i]) is Ok by {
                            if i < at {
                                assert(before[i] is Ok);
                            }
                        }
                        assert(fetched(after).drop_last() =~= fetched(before));
                        assert(fetched(after).last() == fetch->Ok_0);
                    }
                },
                Err(e) => {
                    assert(fails_first_at(answers, at));
                    return Err(e);
                },
            }
        }
        proof {
            assert(answers.take(answers.len() as int) =~= answers);
        }
        self.close(values, closing)
    }
}

impl<T> LinearSet<T> {
    /// Reads a set from a stream of events: the unit value alone gives the
    /// empty set, a bracketed form the set into which its elements were
    /// inserted in order. Any other stream is refused at the place where it
    /// stops being a sequence.
    pub fn deserialize(tokens: Vec<SeqToken<T>>) -> (result: Result<
        LinearSet<T>,
        DecodeError<TokenError>,
    >) where T: PartialEq
        requires
            obeys_concrete_eq::<T>(),
        ensures
            result is Ok <==> is_seq_stream(tokens@),
            result is Ok ==> result->Ok_0.wf() && result->Ok_0@ == gathered(seq_items(tokens@)),
            result is Err ==> seq_stream_breaks_at(tokens@, result->Err_0.0.position as int),
    {
        let mut visitor = LinearSetVisitor::new();
        match read_seq(tokens) {
            Err(e) => Err(DecodeError(e)),
            Ok(SeqInput::Unit) => {
                assert(seq_items(tokens@) =~= Seq::<T>::empty());
                visitor.visit_unit()
            },
            Ok(SeqInput::Opened(access)) => {
                let ghost answers = access.fetches@;
                let ghost closing = access.closing;
                let result = visitor.visit_seq(access);
                proof {
                    if !is_seq_stream(tokens@) {
                        let p = choose|p: int|
                            #![trigger seq_stream_breaks_at(tokens@, p)]
                            {
                                &&& 0 <= p <= usize::MAX
                                &&& seq_stream_breaks_at(tokens@, p)
                                &&& {
                                    let e = TokenError { position: p as usize };
                                    ||| ends_in_failure(answers, e)
                                    ||| all_fetched(answers) && closing == Err::<(), TokenError>(e)
                                }
                            };
                        let e = TokenError { position: p as usize };
                        if ends_in_failure(answers, e) {
                            assert(answers[answers.len() - 1] is Err);
                            let at = choose|at: int|
                                fails_first_at(answers, at) && answers[at] == Err::<T, TokenError>(
                                    result->Err_0.0,
                                );
                            lemma_failure_is_last(answers, e, at);
                        }
                    }
                }
                result
            },
        }
    }
}

} // verus!
