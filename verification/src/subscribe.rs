//! The subscription runtime's decision core: named subscribers with a durable
//! offset per `(subscription key, routing key)`, a registration-ordered
//! handler table, and an ordered poll of the event log.
//!
//! The engine decides here what to deliver and when an offset advances; the
//! surrounding process owns the timing loop and runs the handlers.

use vstd::prelude::*;

use crate::store::EventStore;
use crate::{key_le, key_less, key_lt, key_of, Event, EventCursor, EventView};

verus! {

/// How a subscription consumes the log.
#[derive(Clone, Copy, PartialEq, Eq, Structural, Debug)]
pub enum SubscribeMode {
    /// Resume from the stored offset; the offset advances only on an explicit
    /// acknowledgement, so an event can be redelivered after a crash.
    Persistent,
    /// Resume from the stored offset; the offset advances as soon as a
    /// handler succeeds.
    Normal,
    /// Start at the log's current tail: historical events are skipped.
    Live,
}

/// Errors surfaced when starting a subscription.
#[derive(Clone, Copy, PartialEq, Eq, Structural, Debug)]
pub enum SubscribeError {
    /// The backing store refused the operation.
    Backend,
}

/// Errors surfaced when acknowledging an event.
#[derive(Clone, Copy, PartialEq, Eq, Structural, Debug)]
pub enum AcknowledgeError {
    /// No offset row exists: the subscription was never started.
    NotStarted,
}

/// One entry of the handler table: which `(aggregate type, event name)` it
/// answers, and whether it only skips the event for forward compatibility.
pub struct HandlerSpec {
    pub aggregate_type: String,
    pub event_name: String,
    pub skip: bool,
}

/// The view of a handler entry.
pub ghost struct HandlerSpecView {
    pub aggregate_type: Seq<char>,
    pub event_name: Seq<char>,
    pub skip: bool,
}

impl View for HandlerSpec {
    type V = HandlerSpecView;

    open spec fn view(&self) -> HandlerSpecView {
        HandlerSpecView {
            aggregate_type: self.aggregate_type@,
            event_name: self.event_name@,
            skip: self.skip,
        }
    }
}

/// Whether a handler entry answers an event.
pub open spec fn handler_matches(h: HandlerSpecView, e: EventView) -> bool {
    h.aggregate_type == e.aggregate_type && h.event_name == e.name
}

/// A named, durable consumer of the event log.
pub struct SubscribeBuilder {
    key: String,
    routing_key: Option<String>,
    mode: SubscribeMode,
    delay_ms: u64,
    handlers: Vec<HandlerSpec>,
}

/// Start describing a subscription under a unique name, in persistent mode
/// with the default one-second tick.
pub fn subscribe(key: &str) -> (r: SubscribeBuilder)
    ensures
        r.spec_key() == key@,
        r.spec_routing_key() is None,
        r.spec_mode() == SubscribeMode::Persistent,
        r.spec_delay_ms() == 1000u64,
        r.spec_handlers() =~= Seq::<HandlerSpecView>::empty(),
{
    SubscribeBuilder {
        key: key.to_owned(),
        routing_key: None,
        mode: SubscribeMode::Persistent,
        delay_ms: 1000,
        handlers: Vec::new(),
    }
}

impl SubscribeBuilder {
    /// The subscription's unique name.
    pub closed spec fn spec_key(&self) -> Seq<char> {
        self.key@
    }

    /// The routing-key filter, if any.
    pub closed spec fn spec_routing_key(&self) -> Option<Seq<char>> {
        match self.routing_key {
            Some(ref rk) => Some(rk@),
            None => None,
        }
    }

    /// The delivery mode.
    pub closed spec fn spec_mode(&self) -> SubscribeMode {
        self.mode
    }

    /// The tick between polls, in milliseconds.
    pub closed spec fn spec_delay_ms(&self) -> u64 {
        self.delay_ms
    }

    /// The handler table, in registration order.
    pub closed spec fn spec_handlers(&self) -> Seq<HandlerSpecView> {
        self.handlers@.map_values(|h: HandlerSpec| h@)
    }

    /// Set the delivery mode.
    pub fn mode(self, v: SubscribeMode) -> (r: Self)
        ensures
            r.spec_mode() == v,
            r.spec_key() == self.spec_key(),
            r.spec_routing_key() == self.spec_routing_key(),
            r.spec_delay_ms() == self.spec_delay_ms(),
            r.spec_handlers() == self.spec_handlers(),
    {
        SubscribeBuilder { mode: v, ..self }
    }

    /// Set the tick between polls, in milliseconds.
    pub fn delay(self, ms: u64) -> (r: Self)
        ensures
            r.spec_delay_ms() == ms,
            r.spec_key() == self.spec_key(),
            r.spec_routing_key() == self.spec_routing_key(),
            r.spec_mode() == self.spec_mode(),
            r.spec_handlers() == self.spec_handlers(),
    {
        SubscribeBuilder { delay_ms: ms, ..self }
    }

    /// Restrict the subscription to one routing key.
    pub fn routing_key(self, v: &str) -> (r: Self)
        ensures
            r.spec_routing_key() == Some(v@),
            r.spec_key() == self.spec_key(),
            r.spec_mode() == self.spec_mode(),
            r.spec_delay_ms() == self.spec_delay_ms(),
            r.spec_handlers() == self.spec_handlers(),
    {
        SubscribeBuilder { routing_key: Some(v.to_owned()), ..self }
    }

    /// Register a handler for the events of kind `D` of aggregate `A`. The
    /// table is evaluated in registration order; the first match wins.
    pub fn handler<A: crate::agg::Aggregator, D: crate::agg::AggregatorEvent>(self) -> (r: Self)
        ensures
            r.spec_handlers() =~= self.spec_handlers().push(
                HandlerSpecView {
                    aggregate_type: A::spec_name(),
                    event_name: D::spec_name(),
                    skip: false,
                },
            ),
            r.spec_key() == self.spec_key(),
            r.spec_routing_key() == self.spec_routing_key(),
            r.spec_mode() == self.spec_mode(),
            r.spec_delay_ms() == self.spec_delay_ms(),
    {
        let mut handlers = self.handlers;
        handlers.push(
            HandlerSpec {
                aggregate_type: A::name().to_owned(),
                event_name: D::name().to_owned(),
                skip: false,
            },
        );
        SubscribeBuilder { handlers, ..self }
    }

    /// Register a skip entry: the events of kind `D` of aggregate `A` are
    /// consumed without effect (forward compatibility).
    pub fn skip_handler<A: crate::agg::Aggregator, D: crate::agg::AggregatorEvent>(self) -> (r:
        Self)
        ensures
            r.spec_handlers() =~= self.spec_handlers().push(
                HandlerSpecView {
                    aggregate_type: A::spec_name(),
                    event_name: D::spec_name(),
                    skip: true,
                },
            ),
            r.spec_key() == self.spec_key(),
            r.spec_routing_key() == self.spec_routing_key(),
            r.spec_mode() == self.spec_mode(),
            r.spec_delay_ms() == self.spec_delay_ms(),
    {
        let mut handlers = self.handlers;
        handlers.push(
            HandlerSpec {
                aggregate_type: A::name().to_owned(),
                event_name: D::name().to_owned(),
                skip: true,
            },
        );
        SubscribeBuilder { handlers, ..self }
    }

    /// The handler the event is dispatched to: the first table entry whose
    /// `(aggregate type, event name)` matches, or none (the event is then
    /// consumed silently).
    pub fn dispatch(&self, event: &Event) -> (r: Option<usize>)
        ensures
            match r {
                Some(i) => i < self.spec_handlers().len() && handler_matches(
                    self.spec_handlers()[i as int],
                    event@,
                ) && forall|j: int|
                    0 <= j < i ==> !handler_matches(#[trigger] self.spec_handlers()[j], event@),
                None => forall|j: int|
                    0 <= j < self.spec_handlers().len() ==> !handler_matches(
                        #[trigger] self.spec_handlers()[j],
                        event@,
                    ),
            },
    {
        let mut i: usize = 0;
        while i < self.handlers.len()
            invariant
                i <= self.handlers@.len(),
                forall|j: int|
                    0 <= j < i ==> !handler_matches(#[trigger] self.spec_handlers()[j], event@),
            decreases self.handlers@.len() - i,
        {
            proof {
                assert(self.spec_handlers()[i as int] == self.handlers@[i as int]@);
            }
            let h = &self.handlers[i];
            if h.aggregate_type == event.aggregate_type && h.event_name == event.name {
                return Some(i);
            }
            i += 1;
        }
        None
    }
}

} // verus!

verus! {

/// Whether `k` is the tail of the routed log: some routed event carries it,
/// and no routed event lies beyond it.
pub open spec fn is_tail(evs: Seq<EventView>, rk: Option<Seq<char>>, k: EventCursor) -> bool {
    &&& exists|l: int|
        0 <= l < evs.len() && crate::store::routed(#[trigger] evs[l], rk) && key_of(evs[l]) == k
    &&& forall|l: int|
        0 <= l < evs.len() && crate::store::routed(#[trigger] evs[l], rk) ==> key_le(
            key_of(evs[l]),
            k,
        )
}

impl SubscribeBuilder {
    /// Start the subscription: look up or create its durable offset row.
    ///
    /// A fresh persistent or normal subscription starts at the top of the
    /// log, and an existing row is kept as it is: subscriptions sharing a
    /// name share their progress. A live subscription is anchored at the
    /// log's latest committed cursor on every start, so nothing historical is
    /// ever delivered to it.
    pub fn start(&self, store: &mut EventStore) -> (r: Result<(), SubscribeError>)
        requires
            old(store).wf(),
        ensures
            final(store).wf(),
            r is Ok,
            final(store).evs() == old(store).evs(),
            final(store).snaps() == old(store).snaps(),
            forall|k2: Seq<char>, rk2: Option<Seq<char>>|
                !(k2 == self.spec_key() && rk2 == self.spec_routing_key())
                    ==> #[trigger] crate::store::off_of(final(store).offs(), k2, rk2)
                    == crate::store::off_of(old(store).offs(), k2, rk2),
            match self.spec_mode() {
                SubscribeMode::Live => match crate::store::off_of(
                    final(store).offs(),
                    self.spec_key(),
                    self.spec_routing_key(),
                ) {
                    Some(o) => match o.cursor {
                        Some(k) => is_tail(old(store).evs(), self.spec_routing_key(), k),
                        None => forall|l: int|
                            0 <= l < old(store).evs().len() ==> !crate::store::routed(
                                #[trigger] old(store).evs()[l],
                                self.spec_routing_key(),
                            ),
                    },
                    None => false,
                },
                _ => match crate::store::off_of(
                    old(store).offs(),
                    self.spec_key(),
                    self.spec_routing_key(),
                ) {
                    Some(_) => *final(store) == *old(store),
                    None => crate::store::off_of(
                        final(store).offs(),
                        self.spec_key(),
                        self.spec_routing_key(),
                    ) matches Some(o) && o.cursor is None,
                },
            },
    {
        match self.mode {
            SubscribeMode::Live => {
                // "now" is the latest committed cursor at start
                let tail = store.tail_key(self.routing_key.as_ref());
                store.put_offset(&self.key, self.routing_key.as_ref(), tail);
                Ok(())
            },
            _ => {
                let existing = store.get_offset(&self.key, self.routing_key.as_ref());
                match existing {
                    Some(_) => Ok(()),
                    None => {
                        store.put_offset(&self.key, self.routing_key.as_ref(), None);
                        Ok(())
                    },
                }
            },
        }
    }

    /// The next events owed to this subscription: up to `limit` events routed
    /// to its filter, strictly after its stored offset, in ascending
    /// `(timestamp, version, id)` order, with no routed event skipped up to
    /// the last one returned. Fewer than `limit` events come back only when
    /// nothing routed remains beyond them.
    #[verifier::loop_isolation(false)]
    pub fn poll(&self, store: &EventStore, limit: usize) -> (r: Vec<Event>)
        requires
            store.wf(),
        ensures
            ({
                let rk = self.spec_routing_key();
                let base = match crate::store::off_of(store.offs(), self.spec_key(), rk) {
                    Some(o) => o.cursor,
                    None => None,
                };
                &&& r@.len() <= limit
                &&& forall|x: int|
                    0 <= x < r@.len() ==> store.evs().contains((#[trigger] r@[x])@)
                        && crate::store::routed_after(r@[x]@, rk, base)
                &&& forall|x: int, y: int|
                    #![trigger r@[x], r@[y]]
                    0 <= x < y < r@.len() ==> key_lt(key_of(r@[x]@), key_of(r@[y]@))
                &&& forall|l: int|
                    0 <= l < store.evs().len() && crate::store::routed_after(
                        #[trigger] store.evs()[l],
                        rk,
                        base,
                    ) && r@.len() > 0 && key_le(
                        key_of(store.evs()[l]),
                        key_of(r@[r@.len() - 1]@),
                    ) ==> exists|x: int| 0 <= x < r@.len() && (#[trigger] r@[x])@ == store.evs()[l]
                &&& r@.len() < limit ==> forall|l: int|
                    0 <= l < store.evs().len() && crate::store::routed_after(
                        #[trigger] store.evs()[l],
                        rk,
                        base,
                    ) ==> exists|x: int| 0 <= x < r@.len() && (#[trigger] r@[x])@ == store.evs()[l]
            }),
    {
        let ghost rk = self.spec_routing_key();
        let base = match store.get_offset(&self.key, self.routing_key.as_ref()) {
            Some(c) => c,
            None => None,
        };
        let ghost base_k: Option<EventCursor> = base;

        let mut out: Vec<Event> = Vec::new();
        let mut cur: Option<EventCursor> = base;
        while out.len() < limit
            invariant
                out@.len() <= limit,
                match cur {
                    Some(k) => (base_k == Some(k) && out@.len() == 0) || (out@.len() > 0 && key_of(
                        out@[out@.len() - 1]@,
                    ) == k),
                    None => base_k is None && out@.len() == 0,
                },
                forall|x: int|
                    0 <= x < out@.len() ==> store.evs().contains((#[trigger] out@[x])@)
                        && crate::store::routed_after(out@[x]@, rk, base_k),
                forall|x: int, y: int|
                    #![trigger out@[x], out@[y]]
                    0 <= x < y < out@.len() ==> key_lt(key_of(out@[x]@), key_of(out@[y]@)),
                forall|l: int|
                    0 <= l < store.evs().len() && crate::store::routed_after(
                        #[trigger] store.evs()[l],
                        rk,
                        base_k,
                    ) && (match cur {
                        Some(k) => key_le(key_of(store.evs()[l]), k),
                        None => false,
                    }) ==> exists|x: int|
                        0 <= x < out@.len() && (#[trigger] out@[x])@ == store.evs()[l],
            decreases limit - out.len(),
        {
            let next = store.next_event_after(self.routing_key.as_ref(), cur.as_ref());
            match next {
                Some(e) => {
                    proof {
                        // the minimal next event closes the window up to its key
                        let ghost ek = key_of(e@);
                        assert(store.evs().contains(e@));
                        let li = choose|l: int| 0 <= l < store.evs().len() && store.evs()[l] == e@;
                        assert forall|l: int|
                            0 <= l < store.evs().len() && crate::store::routed_after(
                                #[trigger] store.evs()[l],
                                rk,
                                base_k,
                            ) && key_le(key_of(store.evs()[l]), ek) implies exists|x: int|
                            0 <= x < out@.len() + 1 && (#[trigger] out@.push(e)[x])@
                                == store.evs()[l] by {
                            if crate::store::routed_after(store.evs()[l], rk, cur) {
                                // at or below the minimum: it is the minimum itself
                                assert(key_le(ek, key_of(store.evs()[l])));
                                crate::store::lemma_key_unique(store.evs(), l, li);
                                assert(out@.push(e)[out@.len() as int]@ == store.evs()[l]);
                            } else {
                                // already inside the delivered window
                                match cur {
                                    Some(k) => {
                                        assert(key_le(key_of(store.evs()[l]), k));
                                        let x = choose|x: int|
                                            0 <= x < out@.len() && (#[trigger] out@[x])@
                                                == store.evs()[l];
                                        assert(out@.push(e)[x]@ == store.evs()[l]);
                                    },
                                    None => {},
                                }
                            }
                        }
                    }
                    let k = e.key();
                    out.push(e);
                    cur = Some(k);
                },
                None => {
                    proof {
                        assert forall|l: int|
                            0 <= l < store.evs().len() && crate::store::routed_after(
                                #[trigger] store.evs()[l],
                                rk,
                                base_k,
                            ) implies exists|x: int|
                            0 <= x < out@.len() && (#[trigger] out@[x])@ == store.evs()[l] by {
                            if !crate::store::routed_after(store.evs()[l], rk, cur) {
                            } else {
                                assert(false);
                            }
                        }
                    }
                    return out;
                },
            }
        }
        out
    }
}

/// Acknowledge an event: advance the subscription's durable offset to the
/// event's cursor. The offset never moves backwards; acknowledging an older
/// event leaves it where it stands.
pub fn acknowledge(
    store: &mut EventStore,
    key: &String,
    routing_key: Option<&String>,
    event: &Event,
) -> (r: Result<(), AcknowledgeError>)
    requires
        old(store).wf(),
    ensures
        final(store).wf(),
        final(store).evs() == old(store).evs(),
        final(store).snaps() == old(store).snaps(),
        ({
            let rk = match routing_key {
                Some(s) => Some(s@),
                None => None,
            };
            match crate::store::off_of(old(store).offs(), key@, rk) {
                None => r == Err::<(), AcknowledgeError>(AcknowledgeError::NotStarted)
                    && *final(store) == *old(store),
                Some(o) => {
                    &&& r is Ok
                    &&& crate::store::off_of(final(store).offs(), key@, rk) == Some(
                        crate::store::OffsetView {
                            key: key@,
                            routing_key: rk,
                            cursor: match o.cursor {
                                Some(k) => {
                                    if key_lt(k, key_of(event@)) {
                                        Some(key_of(event@))
                                    } else {
                                        Some(k)
                                    }
                                },
                                None => Some(key_of(event@)),
                            },
                        },
                    )
                    &&& forall|k2: Seq<char>, rk2: Option<Seq<char>>|
                        !(k2 == key@ && rk2 == rk) ==> #[trigger] crate::store::off_of(
                            final(store).offs(),
                            k2,
                            rk2,
                        ) == crate::store::off_of(old(store).offs(), k2, rk2)
                },
            }
        }),
{
    let current = match store.get_offset(key, routing_key) {
        Some(c) => c,
        None => {
            return Err(AcknowledgeError::NotStarted);
        },
    };
    let ek = event.key();
    let advanced: Option<EventCursor> = match current {
        Some(k) => {
            if key_less(&k, &ek) {
                Some(ek)
            } else {
                Some(k)
            }
        },
        None => Some(ek),
    };
    store.put_offset(key, routing_key, advanced);
    Ok(())
}

} // verus!
