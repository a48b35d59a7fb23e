//! The aggregate contract: typed event payloads, the fold, and the byte
//! codecs that snapshots and payloads travel through.
//!
//! A user aggregate implements [`Aggregator`]: a pure fold from events to
//! state, a stable name, a revision tag that invalidates snapshots when the
//! fold changes, and a byte codec for the state with a proved round trip.

use vstd::prelude::*;

use crate::{Event, EventView};

verus! {

/// A value that can travel through the store as opaque bytes.
///
/// Encoding is total; decoding accepts at least every encoded value, which
/// the required round-trip proof pins down.
pub trait Payload: Sized {
    /// The byte encoding of this value.
    spec fn spec_to_bytes(self) -> Seq<u8>;

    /// The value a byte string decodes to, if any.
    spec fn spec_from_bytes(bytes: Seq<u8>) -> Option<Self>;

    /// Decoding inverts encoding.
    proof fn lemma_bytes_round_trip(self)
        ensures
            Self::spec_from_bytes(self.spec_to_bytes()) == Some(self),
    ;

    /// Encode this value.
    fn to_bytes(&self) -> (r: Vec<u8>)
        ensures
            r@ == self.spec_to_bytes(),
    ;

    /// Decode a value from bytes.
    fn from_bytes(bytes: &[u8]) -> (r: Option<Self>)
        ensures
            r == Self::spec_from_bytes(bytes@),
    ;
}

/// A typed event body: a payload with a stable event-kind name, the
/// identifier the event is dispatched by on disk.
pub trait AggregatorEvent: Payload {
    /// The stable event-kind name.
    spec fn spec_name() -> Seq<char>;

    /// The stable event-kind name.
    fn name() -> (r: &'static str)
        ensures
            r@ == Self::spec_name(),
    ;
}

/// An aggregate: a consistency boundary reconstructed by folding its events.
pub trait Aggregator: Sized + Payload {
    /// The stable aggregate type name.
    spec fn spec_name() -> Seq<char>;

    /// The revision tag of the fold; changing it invalidates snapshots.
    spec fn spec_revision() -> Seq<char>;

    /// The state before any event was applied.
    spec fn spec_initial() -> Self;

    /// The pure fold: the state after applying one event, or `None` when the
    /// event is rejected. An event kind the aggregate does not know must map
    /// to `Some(self)` unchanged (forward compatibility).
    spec fn spec_apply(self, event: EventView) -> Option<Self>;

    /// The stable aggregate type name.
    fn name() -> (r: &'static str)
        ensures
            r@ == Self::spec_name(),
    ;

    /// The revision tag of the fold.
    fn revision() -> (r: &'static str)
        ensures
            r@ == Self::spec_revision(),
    ;

    /// The state before any event was applied.
    fn initial() -> (r: Self)
        ensures
            r == Self::spec_initial(),
    ;

    /// An owned copy of this state.
    fn duplicate(&self) -> (r: Self)
        ensures
            r == *self,
    ;

    /// Fold one event into this state. On failure the state is discarded.
    fn apply(&mut self, event: &Event) -> (ok: bool)
        ensures
            match Self::spec_apply(*old(self), event@) {
                Some(next) => ok && *final(self) == next,
                None => !ok,
            },
    ;
}

/// The fold of a whole event sequence, or `None` as soon as one event fails.
pub open spec fn spec_fold<A: Aggregator>(state: A, events: Seq<EventView>) -> Option<A>
    decreases events.len(),
{
    if events.len() == 0 {
        Some(state)
    } else {
        match A::spec_apply(state, events.first()) {
            Some(next) => spec_fold(next, events.drop_first()),
            None => None,
        }
    }
}

/// Folding a concatenation folds the pieces in turn.
pub proof fn lemma_fold_append<A: Aggregator>(state: A, left: Seq<EventView>, right: Seq<EventView>)
    ensures
        spec_fold(state, left + right) == match spec_fold(state, left) {
            Some(mid) => spec_fold::<A>(mid, right),
            None => None,
        },
    decreases left.len(),
{
    if left.len() == 0 {
        assert(left + right =~= right);
    } else {
        assert((left + right).first() == left.first());
        assert((left + right).drop_first() =~= left.drop_first() + right);
        match A::spec_apply(state, left.first()) {
            Some(next) => {
                lemma_fold_append(next, left.drop_first(), right);
            },
            None => {},
        }
    }
}

/// Folding one more event steps the fold of the prefix.
pub proof fn lemma_fold_push<A: Aggregator>(state: A, events: Seq<EventView>, e: EventView)
    ensures
        spec_fold(state, events.push(e)) == match spec_fold(state, events) {
            Some(mid) => A::spec_apply(mid, e),
            None => None,
        },
{
    lemma_fold_append(state, events, seq![e]);
    assert(events.push(e) =~= events + seq![e]);
    let single = seq![e];
    assert(single.len() == 1 && single.first() == e);
    assert(single.drop_first() =~= Seq::<EventView>::empty());
    match spec_fold(state, events) {
        Some(mid) => {
            match A::spec_apply(mid, e) {
                Some(next) => {
                    assert(spec_fold(next, single.drop_first()) == Some(next));
                    assert(spec_fold(mid, single) == Some(next));
                },
                None => {
                    assert(spec_fold(mid, single) == None::<A>);
                },
            }
        },
        None => {},
    }
}

/// What a load returns: the reconstructed state and the aggregate's newest
/// event.
pub struct LoadResult<A: Aggregator> {
    pub item: A,
    pub event: crate::Event,
}

/// A decoded event: the stored row together with its typed body and metadata.
pub struct EventData<D, M> {
    pub details: Event,
    pub data: D,
    pub metadata: M,
}

impl Event {
    /// Decode this event into a typed body `D` and metadata `M`.
    ///
    /// Returns `Ok(None)` when the event is of another kind than `D`;
    /// `Deserialize` when the kind matches but either payload does not decode.
    pub fn to_data<D: AggregatorEvent, M: Payload>(&self) -> (r: Result<
        Option<EventData<D, M>>,
        crate::ReadError,
    >)
        ensures
            match r {
                Ok(None) => self@.name != D::spec_name(),
                Ok(Some(ed)) => self@.name == D::spec_name() && ed.details@ == self@
                    && Some(ed.data) == D::spec_from_bytes(self@.data) && Some(ed.metadata)
                    == M::spec_from_bytes(self@.metadata),
                Err(e) => e == crate::ReadError::Deserialize && self@.name == D::spec_name() && (
                D::spec_from_bytes(self@.data) is None || M::spec_from_bytes(self@.metadata) is None),
            },
    {
        if !(self.name == D::name().to_owned()) {
            return Ok(None);
        }
        let data = match D::from_bytes(self.data.as_slice()) {
            Some(d) => d,
            None => {
                return Err(crate::ReadError::Deserialize);
            },
        };
        let metadata = match M::from_bytes(self.metadata.as_slice()) {
            Some(m) => m,
            None => {
                return Err(crate::ReadError::Deserialize);
            },
        };
        Ok(Some(EventData { details: self.clone(), data, metadata }))
    }
}

} // verus!
