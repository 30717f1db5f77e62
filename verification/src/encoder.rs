//! Writing a container out one event at a time, for a framework that may
//! refuse an event.

use crate::access::EncodeError;
use crate::linear_map::LinearMap;
use crate::linear_set::LinearSet;
use crate::token::{
    lent_map_token, lent_seq_token, map_encoding, seq_encoding, MapToken, SeqToken,
};
use vstd::prelude::*;

verus! {

/// The part of a map that is to be written next.
enum MapStage {
    Opening,
    Key,
    Value,
    Closing,
    Done,
}

/// The writing of one map: it hands out the events in order, one at a time,
/// and is told of each whether the framework took it. After a refusal it
/// hands out nothing more.
pub struct MapEncoder<'a, K, V> {
    map: &'a LinearMap<K, V>,
    stage: MapStage,
    entry: usize,
    failed: bool,
}

impl<'a, K, V> MapEncoder<'a, K, V> {
    /// The entries of the map that is written.
    pub closed spec fn source(&self) -> Seq<(K, V)> {
        self.map@
    }

    /// The number of events that the framework has taken so far.
    pub closed spec fn written(&self) -> int {
        match self.stage {
            MapStage::Opening => 0,
            MapStage::Key => 2 * self.entry + 1,
            MapStage::Value => 2 * self.entry + 2,
            MapStage::Closing => 2 * (self.map@.len() as int) + 1,
            MapStage::Done => 2 * (self.map@.len() as int) + 2,
        }
    }

    /// Whether the framework has refused an event.
    pub closed spec fn failed(&self) -> bool {
        self.failed
    }

    /// The invariant of the type: the writing stands inside the map.
    pub closed spec fn wf(&self) -> bool {
        (self.stage is Key || self.stage is Value) ==> self.entry < self.map@.len()
    }

    /// The writing of `map`, before its first event.
    pub fn new(map: &'a LinearMap<K, V>) -> (encoder: Self)
        ensures
            encoder.wf(),
            encoder.source() == map@,
            encoder.written() == 0,
            !encoder.failed(),
    {
        MapEncoder { map, stage: MapStage::Opening, entry: 0, failed: false }
    }

    /// The event that the framework is to be given now: the next one of
    /// what stands for the map, or none when all were taken or one was
    /// refused.
    pub fn pending(&self) -> (event: Option<MapToken<&'a K, &'a V>>)
        requires
            self.wf(),
        ensures
            0 <= self.written() <= map_encoding(self.source()).len(),
            event is Some <==> !self.failed() && self.written() < map_encoding(
                self.source(),
            ).len(),
            event is Some ==> lent_map_token(event->Some_0) == map_encoding(
                self.source(),
            )[self.written()],
    {
        if self.failed {
            return None;
        }
        match self.stage {
            MapStage::Opening => Some(MapToken::Start(Some(self.map.len()))),
            MapStage::Key => match self.map.entry_at(self.entry) {
                Some((key, _)) => Some(MapToken::Key(key)),
                None => None,
            },
            MapStage::Value => match self.map.entry_at(self.entry) {
                Some((_, value)) => Some(MapToken::Value(value)),
                None => None,
            },
            MapStage::Closing => Some(MapToken::End),
            MapStage::Done => None,
        }
    }

    /// Takes the framework's answer to the pending event. After `Ok` the
    /// next event is pending; a failure ends the writing and is handed on
    /// as it came. Where no event was pending nothing changes.
    pub fn settle<E>(&mut self, outcome: Result<(), E>) -> (result: Result<(), EncodeError<E>>)
        requires
            old(self).wf(),
        ensures
            final(self).wf(),
            final(self).source() == old(self).source(),
            result == match outcome {
                Ok(_) => Ok::<(), EncodeError<E>>(()),
                Err(e) => Err::<(), EncodeError<E>>(EncodeError(e)),
            },
            if old(self).failed() || old(self).written() == map_encoding(old(self).source()).len() {
                final(self).failed() == old(self).failed() && final(self).written() == old(
                    self,
                ).written()
            } else {
                match outcome {
                    Ok(_) => !final(self).failed() && final(self).written() == old(self).written()
                        + 1,
                    Err(_) => final(self).failed() && final(self).written() == old(
                        self,
                    ).written(),
                }
            },
    {
        match outcome {
            Ok(()) => {
                if !self.failed {
                    match self.stage {
                        MapStage::Opening => {
                            self.entry = 0;
                            if self.map.len() == 0 {
                                self.stage = MapStage::Closing;
                            } else {
                                self.stage = MapStage::Key;
                            }
                        },
                        MapStage::Key => {
                            self.stage = MapStage::Value;
                        },
                        MapStage::Value => {
                            let len = self.map.len();
                            if self.entry + 1 < len {
                                self.entry = self.entry + 1;
                                self.stage = MapStage::Key;
                            } else {
                                self.stage = MapStage::Closing;
                            }
                        },
                        MapStage::Closing => {
                            self.stage = MapStage::Done;
                        },
                        MapStage::Done => {},
                    }
                }
                Ok(())
            },
            Err(e) => {
                match self.stage {
                    MapStage::Done => {},
                    _ => {
                        self.failed = true;
                    },
                }
                Err(EncodeError(e))
            },
        }
    }
}

/// The part of a set that is to be written next.
enum SeqStage {
    Opening,
    Element,
    Closing,
    Done,
}

/// The writing of one set: it hands out the events in order, one at a time,
/// and is told of each whether the framework took it. After a refusal it
/// hands out nothing more.
pub struct SeqEncoder<'a, T> {
    set: &'a LinearSet<T>,
    stage: SeqStage,
    item: usize,
    failed: bool,
}

impl<'a, T> SeqEncoder<'a, T> {
    /// The elements of the set that is written.
    pub closed spec fn source(&self) -> Seq<T> {
        self.set@
    }

    /// The number of events that the framework has taken so far.
    pub closed spec fn written(&self) -> int {
        match self.stage {
            SeqStage::Opening => 0,
            SeqStage::Element => self.item + 1,
            SeqStage::Closing => self.set@.len() as int + 1,
            SeqStage::Done => self.set@.len() as int + 2,
        }
    }

    /// Whether the framework has refused an event.
    pub closed spec fn failed(&self) -> bool {
        self.failed
    }

    /// The invariant of the type: the writing stands inside the set.
    pub closed spec fn wf(&self) -> bool {
        self.stage is Element ==> self.item < self.set@.len()
    }

    /// The writing of `set`, before its first event.
    pub fn new(set: &'a LinearSet<T>) -> (encoder: Self)
        ensures
            encoder.wf(),
            encoder.source() == set@,
            encoder.written() == 0,
            !encoder.failed(),
    {
        SeqEncoder { set, stage: SeqStage::Opening, item: 0, failed: false }
    }

    /// The event that the framework is to be given now: the next one of
    /// what stands for the set, or none when all were taken or one was
    /// refused.
    pub fn pending(&self) -> (event: Option<SeqToken<&'a T>>)
        requires
            self.wf(),
        ensures
            0 <= self.written() <= seq_encoding(self.source()).len(),
            event is Some <==> !self.failed() && self.written() < seq_encoding(
                self.source(),
            ).len(),
            event is Some ==> lent_seq_token(event->Some_0) == seq_encoding(
                self.source(),
            )[self.written()],
    {
        if self.failed {
            return None;
        }
        match self.stage {
            SeqStage::Opening => Some(SeqToken::Start(Some(self.set.len()))),
            SeqStage::Element => match self.set.item_at(self.item) {
                Some(item) => Some(SeqToken::Element(item)),
                None => None,
            },
            SeqStage::Closing => Some(SeqToken::End),
            SeqStage::Done => None,
        }
    }

    /// Takes the framework's answer to the pending event. After `Ok` the
    /// next event is pending; a failure ends the writing and is handed on
    /// as it came. Where no event was pending nothing changes.
    pub fn settle<E>(&mut self, outcome: Result<(), E>) -> (result: Result<(), EncodeError<E>>)
        requires
            old(self).wf(),
        ensures
            final(self).wf(),
            final(self).source() == old(self).source(),
            result == match outcome {
                Ok(_) => Ok::<(), EncodeError<E>>(()),
                Err(e) => Err::<(), EncodeError<E>>(EncodeError(e)),
            },
            if old(self).failed() || old(self).written() == seq_encoding(old(self).source()).len() {
                final(self).failed() == old(self).failed() && final(self).written() == old(
                    self,
                ).written()
            } else {
                match outcome {
                    Ok(_) => !final(self).failed() && final(self).written() == old(self).written()
                        + 1,
                    Err(_) => final(self).failed() && final(self).written() == old(
                        self,
                    ).written(),
                }
            },
    {
        match outcome {
            Ok(()) => {
                if !self.failed {
                    let len = self.set.len();
                    match self.stage {
                        SeqStage::Opening => {
                            self.item = 0;
                            if len == 0 {
                                self.stage = SeqStage::Closing;
                            } else {
                                self.stage = SeqStage::Element;
                            }
                        },
                        SeqStage::Element => {
                            if self.item + 1 < len {
                                self.item = self.item + 1;
                            } else {
                                self.stage = SeqStage::Closing;
                            }
                        },
                        SeqStage::Closing => {
                            self.stage = SeqStage::Done;
                        },
                        SeqStage::Done => {},
                    }
                }
                Ok(())
            },
            Err(e) => {
                match self.stage {
                    SeqStage::Done => {},
                    _ => {
                        self.failed = true;
                    },
                }
                Err(EncodeError(e))
            },
        }
    }
}

} // verus!
