//! An embedded event-sourcing engine: an append-only log of immutable domain
//! events with optimistic concurrency keyed on
//! `(aggregate_type, aggregate_id, version)`, snapshot-assisted aggregate
//! loading, opaque keyset pagination, and durable named subscriptions.
//!
//! The store lives in process; events are totally ordered by the composite
//! sort key `(timestamp, version, id)`, whose last component (a ULID) is
//! unique and therefore breaks all ties.

use vstd::prelude::*;

pub mod agg;
pub mod calc;
pub mod cursor;
pub mod load;
pub mod payload;
pub mod save;
pub mod product;
pub mod sql;
pub mod store;
pub mod subscribe;
pub mod web;
pub mod codec;

verus! {

/// A cursor payload for the event log: the composite sort key
/// `(timestamp, version, id)` that totally orders events.
#[derive(Clone, Copy, PartialEq, Eq, Structural, Debug)]
pub struct EventCursor {
    /// Seconds since epoch at which the event was appended.
    pub t: u64,
    /// Version of the event within its aggregate.
    pub v: u16,
    /// Globally unique event id (a ULID in its 128-bit integer form).
    pub i: u128,
}

/// An immutable fact appended to an aggregate's stream.
pub struct Event {
    /// Globally unique id (a ULID in its 128-bit integer form).
    pub id: u128,
    /// The aggregate instance this event belongs to.
    pub aggregate_id: u128,
    /// The domain type name of the aggregate.
    pub aggregate_type: String,
    /// Strictly increasing per `(aggregate_type, aggregate_id)`, starting at 1.
    pub version: u16,
    /// The event-kind name, distinct per variant within an aggregate.
    pub name: String,
    /// Label partitioning subscriber workloads; inherited from the first event.
    pub routing_key: String,
    /// Opaque payload bytes of the typed event body.
    pub data: Vec<u8>,
    /// Opaque caller-defined payload bytes.
    pub metadata: Vec<u8>,
    /// Seconds since epoch, assigned at append time.
    pub timestamp: u64,
}

/// The mathematical value of an [`Event`].
pub ghost struct EventView {
    pub id: u128,
    pub aggregate_id: u128,
    pub aggregate_type: Seq<char>,
    pub version: u16,
    pub name: Seq<char>,
    pub routing_key: Seq<char>,
    pub data: Seq<u8>,
    pub metadata: Seq<u8>,
    pub timestamp: u64,
}

impl View for Event {
    type V = EventView;

    open spec fn view(&self) -> EventView {
        EventView {
            id: self.id,
            aggregate_id: self.aggregate_id,
            aggregate_type: self.aggregate_type@,
            version: self.version,
            name: self.name@,
            routing_key: self.routing_key@,
            data: self.data@,
            metadata: self.metadata@,
            timestamp: self.timestamp,
        }
    }
}

impl Clone for Event {
    fn clone(&self) -> (r: Self)
        ensures
            r@ == self@,
    {
        Event {
            id: self.id,
            aggregate_id: self.aggregate_id,
            aggregate_type: self.aggregate_type.clone(),
            version: self.version,
            name: self.name.clone(),
            routing_key: self.routing_key.clone(),
            data: self.data.clone(),
            metadata: self.metadata.clone(),
            timestamp: self.timestamp,
        }
    }
}

/// The mathematical values of a sequence of events.
pub open spec fn views_of(s: Seq<Event>) -> Seq<EventView> {
    s.map_values(|e: Event| e@)
}

/// The sort key of an event.
pub open spec fn key_of(e: EventView) -> EventCursor {
    EventCursor { t: e.timestamp, v: e.version, i: e.id }
}

/// Lexicographic strict order on sort keys: by timestamp, then version, then id.
pub open spec fn key_lt(a: EventCursor, b: EventCursor) -> bool {
    ||| a.t < b.t
    ||| (a.t == b.t && a.v < b.v)
    ||| (a.t == b.t && a.v == b.v && a.i < b.i)
}

/// Non-strict companion of [`key_lt`].
pub open spec fn key_le(a: EventCursor, b: EventCursor) -> bool {
    key_lt(a, b) || a == b
}

/// Exec comparison deciding [`key_lt`].
pub fn key_less(a: &EventCursor, b: &EventCursor) -> (r: bool)
    ensures
        r == key_lt(*a, *b),
{
    if a.t != b.t {
        a.t < b.t
    } else if a.v != b.v {
        a.v < b.v
    } else {
        a.i < b.i
    }
}

impl Event {
    /// The sort key of this event, as a cursor payload.
    pub fn key(&self) -> (k: EventCursor)
        ensures
            k == key_of(self@),
    {
        EventCursor { t: self.timestamp, v: self.version, i: self.id }
    }
}

/// Errors surfaced by the read side of the engine.
#[derive(Clone, Copy, PartialEq, Eq, Structural, Debug)]
pub enum ReadError {
    /// The aggregate (or the event a cursor points at) does not exist.
    NotFound,
    /// The loader's page bound was exceeded; the aggregate needs compaction.
    TooManyEvents,
    /// A cursor string could not be decoded.
    MalformedCursor,
    /// A typed payload could not be decoded from its bytes.
    Deserialize,
    /// A snapshot matched the current revision but its body could not be decoded.
    DeserializeAggregate,
    /// The backing store refused the operation.
    Backend,
}

/// Errors surfaced by the write side of the engine.
#[derive(Clone, Copy, PartialEq, Eq, Structural, Debug)]
pub enum WriteError {
    /// Another writer advanced the aggregate: the batch's versions do not
    /// directly extend the persisted stream.
    InvalidOriginalVersion,
    /// The batch holds no events.
    MissingData,
    /// No metadata payload was supplied before committing.
    MissingMetadata,
    /// Folding an event into the aggregate failed.
    FoldFailed,
    /// The backing store refused the operation.
    Backend,
}

} // verus!
