//! A reader that turns a stream of events into what a visitor is handed.

use crate::access::{
    all_fetched, ends_in_failure, fetched, MapAccess, MapInput, SeqAccess, SeqInput,
};
use crate::token::{
    is_map_stream, is_seq_stream, map_pairs, map_stream_breaks_at, map_token_fits, seq_items,
    seq_stream_breaks_at, seq_token_fits, MapToken, SeqToken, TokenError,
};
use vstd::prelude::*;

verus! {

/// In a map every event fits: a stream in which one does not is no map.
pub proof fn lemma_map_misfit<K, V>(tokens: Seq<MapToken<K, V>>, at: int)
    requires
        0 <= at < tokens.len(),
        !map_token_fits(tokens, at),
    ensures
        !is_map_stream(tokens),
{
    if is_map_stream(tokens) && tokens.len() >= 2 && at > 0 {
        if at - 1 > 0 {
            assert(!(tokens[at - 1] is End));
        }
        if at < tokens.len() - 1 {
            assert(tokens[at] is Key || tokens[at] is Value);
        }
    }
}

/// A stream that opens a map, in which every event fits and only the last
/// is a closing, is a map.
proof fn lemma_map_whole<K, V>(tokens: Seq<MapToken<K, V>>)
    requires
        tokens.len() >= 2,
        tokens.len() % 2 == 0,
        tokens[0] is Start,
        tokens[tokens.len() - 1] is End,
        forall|j: int| 0 <= j < tokens.len() ==> map_token_fits(tokens, j),
        forall|j: int| 0 < j < tokens.len() - 1 ==> !((#[trigger] tokens[j]) is End),
    ensures
        is_map_stream(tokens),
{
    assert forall|i: int| 0 < i < tokens.len() - 1 implies if i % 2 == 1 {
        (#[trigger] tokens[i]) is Key
    } else {
        tokens[i] is Value
    } by {
        assert(map_token_fits(tokens, i));
    }
}

/// Reads `tokens` as a map. Where the first event opens a map, the answers
/// hold its entries up to the place where the stream stops being a map, and
/// the failure at that place; where it does not, and where events follow the
/// unit value, the reader fails by itself.
pub fn read_map<K, V>(tokens: Vec<MapToken<K, V>>) -> (input: Result<
    MapInput<K, V, TokenError>,
    TokenError,
>)
    ensures
        match input {
            Err(e) => !is_map_stream(tokens@) && map_stream_breaks_at(tokens@, e.position as int)
                && !(tokens@.len() > 0 && tokens@[0] is Start),
            Ok(MapInput::Unit) => tokens@.len() == 1 && tokens@[0] is Unit,
            Ok(MapInput::Opened(access)) => {
                &&& tokens@.len() > 0
                &&& tokens@[0] == MapToken::<K, V>::Start(access.hint)
                &&& if is_map_stream(tokens@) {
                    &&& all_fetched(access.fetches@)
                    &&& fetched(access.fetches@) == map_pairs(tokens@)
                    &&& access.closing is Ok
                } else {
                    exists|at: int|
                        #![trigger map_stream_breaks_at(tokens@, at)]
                        {
                            &&& 0 <= at <= usize::MAX
                            &&& map_stream_breaks_at(tokens@, at)
                            &&& {
                                let e = TokenError { position: at as usize };
                                ||| ends_in_failure(access.fetches@, e)
                                ||| all_fetched(access.fetches@) && access.closing == Err::<
                                    (),
                                    TokenError,
                                >(e)
                            }
                        }
                }
            },
        },
{
    let total = tokens.len();
    let ghost stream = tokens@;
    let mut hint: Option<usize> = None;
    let mut fetches: Vec<Result<(K, V), TokenError>> = Vec::new();
    let mut pending: Option<K> = None;
    let mut position: usize = 0;
    for token in it: tokens
        invariant
            it.seq() == stream,
            stream == tokens@,
            total == stream.len(),
            position == it.index(),
            position <= total,
            position > 0 ==> stream[0] == MapToken::<K, V>::Start(hint),
            forall|j: int| 0 <= j < position ==> map_token_fits(stream, j),
            forall|j: int| 0 < j < position ==> !((#[trigger] stream[j]) is End),
            pending is Some <==> position > 0 && position % 2 == 0,
            pending is Some ==> stream[position - 1] == MapToken::<K, V>::Key(pending->Some_0),
            all_fetched(fetches@),
            position > 0 ==> fetches@.len() == (position - 1) / 2,
            position == 0 ==> fetches@.len() == 0,
            forall|j: int|
                0 <= j < fetches@.len() ==> (#[trigger] fetches@[j]) == Ok::<(K, V), TokenError>(
                    (stream[2 * j + 1]->Key_0, stream[2 * j + 2]->Value_0),
                ),
    {
        assert(token == stream[position as int]);
        if position == 0 {
            match token {
                MapToken::Unit => {
                    if total == 1 {
                        return Ok(MapInput::Unit);
                    } else {
                        return Err(TokenError { position: 1 });
                    }
                },
                MapToken::Start(announced) => {
                    hint = announced;
                },
                _ => {
                    return Err(TokenError { position: 0 });
                },
            }
        } else {
            let key = pending;
            pending = None;
            match (key, token) {
                (None, MapToken::Key(k)) => {
                    pending = Some(k);
                },
                (None, MapToken::End) => {
                    if position + 1 == total {
                        proof {
                            lemma_map_whole(stream);
                            assert(fetched(fetches@) =~= map_pairs(stream));
                        }
                        return Ok(MapInput::Opened(MapAccess { hint, fetches, closing: Ok(()) }));
                    } else {
                        proof {
                            lemma_map_misfit(stream, position + 1);
                            assert(map_stream_breaks_at(stream, position + 1));
                        }
                        return Ok(
                            MapInput::Opened(
                                MapAccess {
                                    hint,
                                    fetches,
                                    closing: Err(TokenError { position: position + 1 }),
                                },
                            ),
                        );
                    }
                },
                (Some(k), MapToken::Value(v)) => {
                    fetches.push(Ok((k, v)));
                },
                _ => {
                    let ghost before = fetches@;
                    proof {
                        assert(!map_token_fits(stream, position as int));
                        lemma_map_misfit(stream, position as int);
                        assert(map_stream_breaks_at(stream, position as int));
                    }
                    fetches.push(Err(TokenError { position }));
                    assert(fetches@.drop_last() =~= before);
                    assert(ends_in_failure(fetches@, TokenError { position }));
                    return Ok(MapInput::Opened(MapAccess { hint, fetches, closing: Ok(()) }));
                },
            }
        }
        position += 1;
    }
    if total == 0 {
        return Err(TokenError { position: 0 });
    }
    let ghost before = fetches@;
    proof {
        assert(map_stream_breaks_at(stream, total as int));
    }
    fetches.push(Err(TokenError { position: total }));
    assert(fetches@.drop_last() =~= before);
    assert(ends_in_failure(fetches@, TokenError { position: total }));
    Ok(MapInput::Opened(MapAccess { hint, fetches, closing: Ok(()) }))
}

/// In a sequence every event fits: a stream in which one does not is no
/// sequence.
pub proof fn lemma_seq_misfit<T>(tokens: Seq<SeqToken<T>>, at: int)
    requires
        0 <= at < tokens.len(),
        !seq_token_fits(tokens, at),
    ensures
        !is_seq_stream(tokens),
{
    if is_seq_stream(tokens) && tokens.len() >= 2 && at > 0 {
        if at - 1 > 0 {
            assert(tokens[at - 1] is Element);
        }
        if at < tokens.len() - 1 {
            assert(tokens[at] is Element);
        }
    }
}

/// A stream that opens a sequence, in which every event fits and only the
/// last is a closing, is a sequence.
proof fn lemma_seq_whole<T>(tokens: Seq<SeqToken<T>>)
    requires
        tokens.len() >= 2,
        tokens[0] is Start,
        tokens[tokens.len() - 1] is End,
        forall|j: int| 0 <= j < tokens.len() ==> seq_token_fits(tokens, j),
        forall|j: int| 0 < j < tokens.len() - 1 ==> !((#[trigger] tokens[j]) is End),
    ensures
        is_seq_stream(tokens),
{
    assert forall|i: int| 0 < i < tokens.len() - 1 implies (#[trigger] tokens[i]) is Element by {
        assert(seq_token_fits(tokens, i));
    }
}

/// Reads `tokens` as a sequence. Where the first event opens a sequence,
/// the answers hold its elements up to the place where the stream stops
/// being a sequence, and the failure at that place; where it does not, and
/// where events follow the unit value, the reader fails by itself.
pub fn read_seq<T>(tokens: Vec<SeqToken<T>>) -> (input: Result<SeqInput<T, TokenError>, TokenError>)
    ensures
        match input {
            Err(e) => !is_seq_stream(tokens@) && seq_stream_breaks_at(tokens@, e.position as int)
                && !(tokens@.len() > 0 && tokens@[0] is Start),
            Ok(SeqInput::Unit) => tokens@.len() == 1 && tokens@[0] is Unit,
            Ok(SeqInput::Opened(access)) => {
                &&& tokens@.len() > 0
                &&& tokens@[0] == SeqToken::<T>::Start(access.hint)
                &&& if is_seq_stream(tokens@) {
                    &&& all_fetched(access.fetches@)
                    &&& fetched(access.fetches@) == seq_items(tokens@)
                    &&& access.closing is Ok
                } else {
                    exists|at: int|
                        #![trigger seq_stream_breaks_at(tokens@, at)]
                        {
                            &&& 0 <= at <= usize::MAX
                            &&& seq_stream_breaks_at(tokens@, at)
                            &&& {
                                let e = TokenError { position: at as usize };
                                ||| ends_in_failure(access.fetches@, e)
                                ||| all_fetched(access.fetches@) && access.closing == Err::<
                                    (),
                                    TokenError,
                                >(e)
                            }
                        }
                }
            },
        },
{
    let total = tokens.len();
    let ghost stream = tokens@;
    let mut hint: Option<usize> = None;
    let mut fetches: Vec<Result<T, TokenError>> = Vec::new();
    let mut position: usize = 0;
    for token in it: tokens
        invariant
            it.seq() == stream,
            stream == tokens@,
            total == stream.len(),
            position == it.index(),
            position <= total,
            position > 0 ==> stream[0] == SeqToken::<T>::Start(hint),
            forall|j: int| 0 <= j < position ==> seq_token_fits(stream, j),
            forall|j: int| 0 < j < position ==> !((#[trigger] stream[j]) is End),
            all_fetched(fetches@),
            position > 0 ==> fetches@.len() == position - 1,
            position == 0 ==> fetches@.len() == 0,
            forall|j: int|
                0 <= j < fetches@.len() ==> (#[trigger] fetches@[j]) == Ok::<T, TokenError>(
                    stream[j + 1]->Element_0,
                ),
    {
        assert(token == stream[position as int]);
        if position == 0 {
            match token {
                SeqToken::Unit => {
                    if total == 1 {
                        return Ok(SeqInput::Unit);
                    } else {
                        return Err(TokenError { position: 1 });
                    }
                },
                SeqToken::Start(announced) => {
                    hint = announced;
                },
                _ => {
                    return Err(TokenError { position: 0 });
                },
            }
        } else {
            match token {
                SeqToken::Element(item) => {
                    fetches.push(Ok(item));
                },
                SeqToken::End => {
                    if position + 1 == total {
                        proof {
                            lemma_seq_whole(stream);
                            assert(fetched(fetches@) =~= seq_items(stream));
                        }
                        return Ok(SeqInput::Opened(SeqAccess { hint, fetches, closing: Ok(()) }));
                    } else {
                        proof {
                            lemma_seq_misfit(stream, position + 1);
                            assert(seq_stream_breaks_at(stream, position + 1));
                        }
                        return Ok(
                            SeqInput::Opened(
                                SeqAccess {
                                    hint,
                                    fetches,
                                    closing: Err(TokenError { position: position + 1 }),
                                },
                            ),
                        );
                    }
                },
                _ => {
                    let ghost before = fetches@;
                    proof {
                        assert(!seq_token_fits(stream, position as int));
                        lemma_seq_misfit(stream, position as int);
                        assert(seq_stream_breaks_at(stream, position as int));
                    }
                    fetches.push(Err(TokenError { position }));
                    assert(fetches@.drop_last() =~= before);
                    assert(ends_in_failure(fetches@, TokenError { position }));
                    return Ok(SeqInput::Opened(SeqAccess { hint, fetches, closing: Ok(()) }));
                },
            }
        }
        position += 1;
    }
    if total == 0 {
        return Err(TokenError { position: 0 });
    }
    let ghost before = fetches@;
    proof {
        assert(seq_stream_breaks_at(stream, total as int));
    }
    fetches.push(Err(TokenError { position: total }));
    assert(fetches@.drop_last() =~= before);
    assert(ends_in_failure(fetches@, TokenError { position: total }));
    Ok(SeqInput::Opened(SeqAccess { hint, fetches, closing: Ok(()) }))
}

} // verus!
