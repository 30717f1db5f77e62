//! Writing a container out as a stream of events.

use crate::linear_map::LinearMap;
use crate::linear_set::LinearSet;
use crate::token::{
    lent_map_token, lent_seq_token, map_encoding, seq_encoding, MapToken, SeqToken,
};
use vstd::prelude::*;

verus! {

impl<K, V> LinearMap<K, V> {
    /// The events that stand for this map, in the order in which they are
    /// to be emitted.
    pub fn serialize<'a>(&'a self) -> (tokens: Vec<MapToken<&'a K, &'a V>>)
        ensures
            tokens@.map_values(|t: MapToken<&K, &V>| lent_map_token(t)) == map_encoding(self@),
    {
        let mut tokens: Vec<MapToken<&'a K, &'a V>> = Vec::new();
        tokens.push(MapToken::Start(Some(self.len())));
        let mut i: usize = 0;
        while i < self.len()
            invariant
                i <= self@.len(),
                tokens@.len() == 2 * i + 1,
                forall|j: int|
                    0 <= j < tokens@.len() ==> lent_map_token(#[trigger] tokens@[j])
                        == map_encoding(self@)[j],
            decreases self@.len() - i,
        {
            match self.entry_at(i) {
                Some((k, v)) => {
                    tokens.push(MapToken::Key(k));
                    tokens.push(MapToken::Value(v));
                },
                None => {},
            }
            i += 1;
        }
        tokens.push(MapToken::End);
        assert(tokens@.map_values(|t: MapToken<&K, &V>| lent_map_token(t)) =~= map_encoding(
            self@,
        ));
        tokens
    }
}

impl<T> LinearSet<T> {
    /// The events that stand for this set, in the order in which they are
    /// to be emitted.
    pub fn serialize<'a>(&'a self) -> (tokens: Vec<SeqToken<&'a T>>)
        ensures
            tokens@.map_values(|t: SeqToken<&T>| lent_seq_token(t)) == seq_encoding(self@),
    {
        let mut tokens: Vec<SeqToken<&'a T>> = Vec::new();
        tokens.push(SeqToken::Start(Some(self.len())));
        let mut i: usize = 0;
        while i < self.len()
            invariant
                i <= self@.len(),
                tokens@.len() == i + 1,
                forall|j: int|
                    0 <= j < tokens@.len() ==> lent_seq_token(#[trigger] tokens@[j])
                        == seq_encoding(self@)[j],
            decreases self@.len() - i,
        {
            match self.item_at(i) {
                Some(item) => {
                    tokens.push(SeqToken::Element(item));
                },
                None => {},
            }
            i += 1;
        }
        tokens.push(SeqToken::End);
        assert(tokens@.map_values(|t: SeqToken<&T>| lent_seq_token(t)) =~= seq_encoding(self@));
        tokens
    }
}

} // verus!
