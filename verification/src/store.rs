//! The event store: an append-only in-process log of events with optimistic
//! concurrency keyed on `(aggregate_type, aggregate_id, version)`, plus
//! snapshots and durable subscription offsets.

use vstd::prelude::*;
use vstd::seq_lib::*;

use crate::cursor::{Args, Edge, PageInfo, ReadResult, Value};
use crate::{views_of, Event, EventCursor, EventView, ReadError, WriteError, key_le, key_less, key_lt, key_of};

verus! {

broadcast use vstd::seq_lib::group_seq_lib_default, vstd::seq::group_seq_axioms;

/// A serialized aggregate body together with the cursor of the last event
/// folded into it and the revision of the fold that produced it.
pub struct Snapshot {
    pub aggregate_type: String,
    pub aggregate_id: u128,
    pub cursor: EventCursor,
    pub revision: String,
    pub data: Vec<u8>,
}

/// The mathematical value of a [`Snapshot`].
pub ghost struct SnapshotView {
    pub aggregate_type: Seq<char>,
    pub aggregate_id: u128,
    pub cursor: EventCursor,
    pub revision: Seq<char>,
    pub data: Seq<u8>,
}

impl View for Snapshot {
    type V = SnapshotView;

    open spec fn view(&self) -> SnapshotView {
        SnapshotView {
            aggregate_type: self.aggregate_type@,
            aggregate_id: self.aggregate_id,
            cursor: self.cursor,
            revision: self.revision@,
            data: self.data@,
        }
    }
}

/// The last-acknowledged cursor of a named subscription, per routing key.
pub struct SubscriptionOffset {
    pub key: String,
    pub routing_key: Option<String>,
    pub cursor: Option<EventCursor>,
}

/// The mathematical value of a [`SubscriptionOffset`].
pub ghost struct OffsetView {
    pub key: Seq<char>,
    pub routing_key: Option<Seq<char>>,
    pub cursor: Option<EventCursor>,
}

impl View for SubscriptionOffset {
    type V = OffsetView;

    open spec fn view(&self) -> OffsetView {
        OffsetView {
            key: self.key@,
            routing_key: match self.routing_key {
                Some(ref rk) => Some(rk@),
                None => None,
            },
            cursor: self.cursor,
        }
    }
}

/// Whether two events belong to one aggregate.
pub open spec fn same_agg(a: EventView, b: EventView) -> bool {
    a.aggregate_type == b.aggregate_type && a.aggregate_id == b.aggregate_id
}

/// Whether an event belongs to the aggregate `(ty, id)`.
pub open spec fn in_stream(e: EventView, ty: Seq<char>, id: u128) -> bool {
    e.aggregate_type == ty && e.aggregate_id == id
}

/// The events of one aggregate, in log order (which is version order).
pub open spec fn stream_of(evs: Seq<EventView>, ty: Seq<char>, id: u128) -> Seq<EventView> {
    evs.filter(|e: EventView| in_stream(e, ty, id))
}

/// The version of the newest persisted event of an aggregate; 0 when the
/// aggregate has no events yet.
pub open spec fn last_version_of(evs: Seq<EventView>, ty: Seq<char>, id: u128) -> int {
    if stream_of(evs, ty, id).len() == 0 {
        0
    } else {
        stream_of(evs, ty, id).last().version as int
    }
}

/// The timestamp of the newest persisted event of an aggregate; 0 when the
/// aggregate has no events yet.
pub open spec fn last_timestamp_of(evs: Seq<EventView>, ty: Seq<char>, id: u128) -> u64 {
    if stream_of(evs, ty, id).len() == 0 {
        0
    } else {
        stream_of(evs, ty, id).last().timestamp
    }
}

/// Well-formedness of the event log.
///
/// Within one aggregate, log order is version order: versions are strictly
/// increasing, timestamps never decrease, and every event carries the one
/// routing key of its aggregate. Versions start at 1 and are dense, and event
/// ids are globally unique.
pub open spec fn events_wf(evs: Seq<EventView>) -> bool {
    &&& forall|k: int, l: int|
        #![trigger evs[k], evs[l]]
        0 <= k < l < evs.len() && same_agg(evs[k], evs[l]) ==> evs[k].version < evs[l].version
            && evs[k].timestamp <= evs[l].timestamp && evs[k].routing_key == evs[l].routing_key
    &&& forall|k: int| 0 <= k < evs.len() ==> 1 <= (#[trigger] evs[k]).version
    &&& forall|k: int|
        0 <= k < evs.len() && (#[trigger] evs[k]).version > 1 ==> exists|l: int|
            0 <= l < evs.len() && same_agg(#[trigger] evs[l], evs[k]) && evs[l].version + 1
                == evs[k].version
    &&& forall|k: int, l: int|
        #![trigger evs[k].id, evs[l].id]
        0 <= k < l < evs.len() ==> evs[k].id != evs[l].id
}

/// The append-only event store, with snapshots and subscription offsets.
pub struct EventStore {
    events: Vec<Event>,
    snapshots: Vec<Snapshot>,
    offsets: Vec<SubscriptionOffset>,
}

impl EventStore {
    /// The persisted event log, in append order.
    pub closed spec fn evs(&self) -> Seq<EventView> {
        views_of(self.events@)
    }

    /// The persisted snapshots.
    pub closed spec fn snaps(&self) -> Seq<SnapshotView> {
        self.snapshots@.map_values(|s: Snapshot| s@)
    }

    /// The persisted subscription offsets.
    pub closed spec fn offs(&self) -> Seq<OffsetView> {
        self.offsets@.map_values(|o: SubscriptionOffset| o@)
    }

    /// The events of one aggregate, in version order.
    pub open spec fn stream(&self, ty: Seq<char>, id: u128) -> Seq<EventView> {
        stream_of(self.evs(), ty, id)
    }

    /// The store's invariant: the log is well-formed and snapshot and offset
    /// keys are unique.
    pub open spec fn wf(&self) -> bool {
        &&& events_wf(self.evs())
        &&& forall|k: int, l: int|
            #![trigger self.snaps()[k], self.snaps()[l]]
            0 <= k < l < self.snaps().len() ==> !(self.snaps()[k].aggregate_type
                == self.snaps()[l].aggregate_type && self.snaps()[k].aggregate_id
                == self.snaps()[l].aggregate_id)
        &&& forall|k: int, l: int|
            #![trigger self.offs()[k], self.offs()[l]]
            0 <= k < l < self.offs().len() ==> !(self.offs()[k].key == self.offs()[l].key && self
                .offs()[k].routing_key == self.offs()[l].routing_key)
    }

    /// An empty store.
    pub fn new() -> (r: Self)
        ensures
            r.wf(),
            r.evs() == Seq::<EventView>::empty(),
            r.snaps() == Seq::<SnapshotView>::empty(),
            r.offs() == Seq::<OffsetView>::empty(),
    {
        let r = EventStore { events: Vec::new(), snapshots: Vec::new(), offsets: Vec::new() };
        proof {
            assert(r.evs() =~= Seq::<EventView>::empty());
            assert(r.snaps() =~= Seq::<SnapshotView>::empty());
            assert(r.offs() =~= Seq::<OffsetView>::empty());
        }
        r
    }
}

/// A batch names one aggregate: every entry shares the first entry's
/// `aggregate_type` and `aggregate_id`.
pub open spec fn batch_tyid_uniform(b: Seq<EventView>) -> bool {
    forall|j: int|
        0 <= j < b.len() ==> (#[trigger] b[j]).aggregate_type == b[0].aggregate_type && b[j].aggregate_id == b[0].aggregate_id
}

/// The batch's versions are contiguous, starting one past the last persisted
/// version of its aggregate.
pub open spec fn batch_versions_ok(evs: Seq<EventView>, b: Seq<EventView>) -> bool
    recommends
        b.len() > 0,
{
    forall|j: int|
        0 <= j < b.len() ==> (#[trigger] b[j]).version == last_version_of(
            evs,
            b[0].aggregate_type,
            b[0].aggregate_id,
        ) + 1 + j
}

/// The remaining constraints the store puts on a batch: one routing key that
/// matches the aggregate's persisted one, one timestamp that does not precede
/// the aggregate's newest event, and globally fresh, distinct ids.
pub open spec fn batch_rest_ok(evs: Seq<EventView>, b: Seq<EventView>) -> bool
    recommends
        b.len() > 0,
{
    &&& forall|j: int|
        0 <= j < b.len() ==> (#[trigger] b[j]).routing_key == b[0].routing_key && b[j].timestamp
            == b[0].timestamp
    &&& (stream_of(evs, b[0].aggregate_type, b[0].aggregate_id).len() > 0 ==> b[0].routing_key
        == stream_of(evs, b[0].aggregate_type, b[0].aggregate_id).last().routing_key)
    &&& b[0].timestamp >= last_timestamp_of(evs, b[0].aggregate_type, b[0].aggregate_id)
    &&& forall|x: int, y: int|
        #![trigger b[x].id, b[y].id]
        0 <= x < y < b.len() ==> b[x].id != b[y].id
    &&& forall|x: int, l: int|
        #![trigger b[x].id, evs[l].id]
        0 <= x < b.len() && 0 <= l < evs.len() ==> b[x].id != evs[l].id
}

/// What [`EventStore::write`] decides for a given log and batch: the write is
/// deterministic, and this is its whole outcome.
pub open spec fn write_verdict(evs: Seq<EventView>, b: Seq<EventView>) -> Result<(), WriteError> {
    if b.len() == 0 {
        Err(WriteError::MissingData)
    } else if !batch_tyid_uniform(b) {
        Err(WriteError::Backend)
    } else if !batch_versions_ok(evs, b) {
        Err(WriteError::InvalidOriginalVersion)
    } else if !batch_rest_ok(evs, b) {
        Err(WriteError::Backend)
    } else {
        Ok(())
    }
}

impl EventStore {
    /// Whether some persisted event carries the id `eid`.
    #[verifier::loop_isolation(false)]
    fn log_has_id(&self, eid: u128) -> (r: bool)
        ensures
            r == exists|l: int| 0 <= l < self.evs().len() && (#[trigger] self.evs()[l]).id == eid,
    {
        let mut i: usize = 0;
        while i < self.events.len()
            invariant
                i <= self.events.len(),
                self.evs().len() == self.events@.len(),
                forall|l: int| 0 <= l < i ==> (#[trigger] self.evs()[l]).id != eid,
            decreases self.events.len() - i,
        {
            proof {
                assert(self.evs()[i as int] == self.events@[i as int]@);
            }
            if self.events[i].id == eid {
                return true;
            }
            i += 1;
        }
        false
    }

    /// The version, timestamp and routing key of the newest persisted event of
    /// the aggregate `(ty, id)`, if it has any events.
    #[verifier::loop_isolation(false)]
    pub(crate) fn stream_last(&self, ty: &String, id: u128) -> (r: Option<(u16, u64, String)>)
        ensures
            match r {
                None => self.stream(ty@, id).len() == 0,
                Some((v, t, rk)) => self.stream(ty@, id).len() > 0 && v == self.stream(
                    ty@,
                    id,
                ).last().version && t == self.stream(ty@, id).last().timestamp && rk@ == self.stream(
                    ty@,
                    id,
                ).last().routing_key,
            },
    {
        let mut r: Option<(u16, u64, String)> = None;
        let mut i: usize = 0;
        while i < self.events.len()
            invariant
                i <= self.events.len(),
                self.evs().len() == self.events@.len(),
                ({
                    let s = stream_of(self.evs().take(i as int), ty@, id);
                    match r {
                        None => s.len() == 0,
                        Some((v, t, rk)) => s.len() > 0 && v == s.last().version && t
                            == s.last().timestamp && rk@ == s.last().routing_key,
                    }
                }),
            decreases self.events.len() - i,
        {
            proof {
                assert(self.evs()[i as int] == self.events@[i as int]@);
                assert(self.evs().take(i + 1 as int) =~= self.evs().take(i as int).push(
                    self.evs()[i as int],
                ));
                lemma_filter_push(
                    self.evs().take(i as int),
                    self.evs()[i as int],
                    |e: EventView| in_stream(e, ty@, id),
                );
            }
            let e = &self.events[i];
            if e.aggregate_type == *ty && e.aggregate_id == id {
                r = Some((e.version, e.timestamp, e.routing_key.clone()));
            }
            i += 1;
        }
        proof {
            assert(self.evs().take(self.events@.len() as int) =~= self.evs());
        }
        r
    }

    /// Append a batch of events atomically.
    ///
    /// Either every event of the batch becomes persisted, in order, at the end
    /// of the log, or the store is unchanged and the verdict says why: an
    /// empty batch is `MissingData`; versions that do not directly extend the
    /// aggregate's stream are `InvalidOriginalVersion` (the optimistic
    /// concurrency guard); anything the store's constraints refuse is
    /// `Backend`.
    #[verifier::loop_isolation(false)]
    pub fn write(&mut self, events: Vec<Event>) -> (r: Result<(), WriteError>)
        requires
            old(self).wf(),
        ensures
            final(self).wf(),
            r == write_verdict(old(self).evs(), views_of(events@)),
            r is Ok ==> final(self).evs() == old(self).evs() + views_of(events@),
            r is Err ==> *final(self) == *old(self),
            final(self).snaps() == old(self).snaps(),
            final(self).offs() == old(self).offs(),
    {
        let ghost batch: Seq<EventView> = views_of(events@);
        let ghost oevs: Seq<EventView> = self.evs();
        if events.len() == 0 {
            return Err(WriteError::MissingData);
        }
        let ty = events[0].aggregate_type.clone();
        let id = events[0].aggregate_id;
        proof {
            assert(batch[0] == events@[0]@);
        }

        // One aggregate per batch.
        let mut j: usize = 1;
        while j < events.len()
            invariant
                1 <= j <= events@.len(),
                batch == views_of(events@),
                ty@ == batch[0].aggregate_type,
                id == batch[0].aggregate_id,
                forall|x: int|
                    0 <= x < j ==> (#[trigger] batch[x]).aggregate_type == batch[0].aggregate_type
                        && batch[x].aggregate_id == batch[0].aggregate_id,
            decreases events@.len() - j,
        {
            proof {
                assert(batch[j as int] == events@[j as int]@);
            }
            if !(events[j].aggregate_type == ty) || events[j].aggregate_id != id {
                return Err(WriteError::Backend);
            }
            j += 1;
        }
        assert(batch_tyid_uniform(batch));

        // Versions directly extend the persisted stream.
        let last = self.stream_last(&ty, id);
        let (lv, lt) = match &last {
            Some((v, t, _)) => (*v, *t),
            None => (0u16, 0u64),
        };
        assert(lv as int == last_version_of(oevs, ty@, id));
        assert(lt == last_timestamp_of(oevs, ty@, id));
        let mut j: usize = 0;
        while j < events.len()
            invariant
                j <= events@.len(),
                j <= 65535,
                batch == views_of(events@),
                lv as int == last_version_of(oevs, ty@, id),
                ty@ == batch[0].aggregate_type,
                id == batch[0].aggregate_id,
                forall|x: int|
                    0 <= x < j ==> (#[trigger] batch[x]).version == last_version_of(
                        oevs,
                        batch[0].aggregate_type,
                        batch[0].aggregate_id,
                    ) + 1 + x,
            decreases events@.len() - j,
        {
            proof {
                assert(batch[j as int] == events@[j as int]@);
            }
            if !(events[j].version as u64 == lv as u64 + 1 + j as u64) {
                return Err(WriteError::InvalidOriginalVersion);
            }
            j += 1;
        }
        assert(batch_versions_ok(oevs, batch));

        // One routing key and one timestamp per batch; the routing key is the
        // aggregate's persisted one; the timestamp does not precede the
        // aggregate's newest event.
        let mut j: usize = 0;
        while j < events.len()
            invariant
                j <= events@.len(),
                events@.len() > 0,
                batch == views_of(events@),
                forall|x: int|
                    0 <= x < j ==> (#[trigger] batch[x]).routing_key == batch[0].routing_key && batch[x].timestamp == batch[0].timestamp,
            decreases events@.len() - j,
        {
            proof {
                assert(batch[j as int] == events@[j as int]@);
                assert(batch[0] == events@[0]@);
            }
            if !(events[j].routing_key == events[0].routing_key) || events[j].timestamp
                != events[0].timestamp {
                return Err(WriteError::Backend);
            }
            j += 1;
        }
        match &last {
            Some((_, _, rk)) => {
                if !(events[0].routing_key == *rk) {
                    return Err(WriteError::Backend);
                }
            },
            None => {},
        }
        if events[0].timestamp < lt {
            return Err(WriteError::Backend);
        }

        // Fresh, distinct ids.
        let mut j: usize = 0;
        while j < events.len()
            invariant
                j <= events@.len(),
                batch == views_of(events@),
                oevs == self.evs(),
                forall|x: int, y: int|
                    #![trigger batch[x].id, batch[y].id]
                    0 <= x < y < batch.len() && x < j ==> batch[x].id != batch[y].id,
                forall|x: int, l: int|
                    #![trigger batch[x].id, oevs[l].id]
                    0 <= x < j && 0 <= l < oevs.len() ==> batch[x].id != oevs[l].id,
            decreases events@.len() - j,
        {
            proof {
                assert(batch[j as int] == events@[j as int]@);
            }
            if self.log_has_id(events[j].id) {
                proof {
                    let l = choose|l: int|
                        0 <= l < self.evs().len() && (#[trigger] self.evs()[l]).id
                            == events@[j as int]@.id;
                    assert(batch[j as int].id == oevs[l].id);
                    assert(!batch_rest_ok(oevs, batch));
                }
                return Err(WriteError::Backend);
            }
            let mut k: usize = j + 1;
            while k < events.len()
                invariant
                    j < k <= events@.len(),
                    batch == views_of(events@),
                        forall|y: int| j < y < k ==> batch[j as int].id != (#[trigger] batch[y]).id,
                decreases events@.len() - k,
            {
                proof {
                    assert(batch[k as int] == events@[k as int]@);
                    assert(batch[j as int] == events@[j as int]@);
                }
                if events[j].id == events[k].id {
                    proof {
                        assert(batch[j as int].id == batch[k as int].id);
                        assert(!batch_rest_ok(oevs, batch));
                    }
                    return Err(WriteError::Backend);
                }
                k += 1;
            }
            j += 1;
        }
        assert(batch_rest_ok(oevs, batch));

        // All checks passed: append the batch.
        proof {
            lemma_append_preserves_wf(oevs, batch);
        }
        let mut idx: usize = 0;
        while idx < events.len()
            invariant
                idx <= events@.len(),
                batch == views_of(events@),
                self.evs() == oevs + batch.take(idx as int),
                self.snaps() == old(self).snaps(),
                self.offs() == old(self).offs(),
            decreases events@.len() - idx,
        {
            proof {
                assert(batch[idx as int] == events@[idx as int]@);
            }
            let e = events[idx].clone();
            let ghost pre = self.evs();
            self.events.push(e);
            proof {
                assert(self.evs() =~= pre.push(batch[idx as int]));
                assert(pre.push(batch[idx as int]) =~= oevs + batch.take(idx + 1 as int));
            }
            idx += 1;
        }
        proof {
            assert(batch.take(batch.len() as int) =~= batch);
        }
        Ok(())
    }
}

/// The absolute cap on a page size, whatever the arguments ask for.
pub const MAX_LIMIT: u16 = 10000;

/// The page size a reader works with: the effective limit of the arguments,
/// capped at [`MAX_LIMIT`].
pub open spec fn effective_limit(args: Args) -> u16 {
    if args.spec_limit() > MAX_LIMIT {
        MAX_LIMIT
    } else {
        args.spec_limit()
    }
}

/// The rows a forward page draws from: the aggregate's events strictly after
/// the cursor, in ascending key order.
pub open spec fn forward_rows(
    evs: Seq<EventView>,
    ty: Seq<char>,
    id: u128,
    cur: Option<EventCursor>,
) -> Seq<EventView> {
    match cur {
        Some(k) => evs.filter(|e: EventView| in_stream(e, ty, id) && key_lt(k, key_of(e))),
        None => stream_of(evs, ty, id),
    }
}

/// The rows a backward page draws from: the aggregate's events strictly
/// before the cursor, in ascending key order.
pub open spec fn backward_rows(
    evs: Seq<EventView>,
    ty: Seq<char>,
    id: u128,
    cur: Option<EventCursor>,
) -> Seq<EventView> {
    match cur {
        Some(k) => evs.filter(|e: EventView| in_stream(e, ty, id) && key_lt(key_of(e), k)),
        None => stream_of(evs, ty, id),
    }
}

/// A forward page: the first `limit` rows after the cursor.
pub open spec fn forward_page(
    evs: Seq<EventView>,
    ty: Seq<char>,
    id: u128,
    cur: Option<EventCursor>,
    limit: int,
) -> Seq<EventView> {
    let t = forward_rows(evs, ty, id, cur);
    t.take(if t.len() <= limit {
        t.len() as int
    } else {
        limit
    })
}

/// Whether rows remain beyond a forward page.
pub open spec fn forward_has_more(
    evs: Seq<EventView>,
    ty: Seq<char>,
    id: u128,
    cur: Option<EventCursor>,
    limit: int,
) -> bool {
    forward_rows(evs, ty, id, cur).len() > limit
}

/// A backward page: the last `limit` rows before the cursor, still in
/// ascending order.
pub open spec fn backward_page(
    evs: Seq<EventView>,
    ty: Seq<char>,
    id: u128,
    cur: Option<EventCursor>,
    limit: int,
) -> Seq<EventView> {
    let t = backward_rows(evs, ty, id, cur);
    t.skip(if t.len() <= limit {
        0
    } else {
        t.len() - limit
    })
}

/// Whether rows remain before a backward page.
pub open spec fn backward_has_more(
    evs: Seq<EventView>,
    ty: Seq<char>,
    id: u128,
    cur: Option<EventCursor>,
    limit: int,
) -> bool {
    backward_rows(evs, ty, id, cur).len() > limit
}

/// What a returned page promises: its edges are exactly the page rows in
/// ascending key order, each addressed by the encoding of its own sort key;
/// the page-info flags and boundary cursors are one-sided: a
/// forward page reports only `has_next_page` and `end_cursor`, a backward
/// page only `has_previous_page` and `start_cursor`.
pub open spec fn page_ok(
    evs: Seq<EventView>,
    ty: Seq<char>,
    id: u128,
    cur: Option<EventCursor>,
    limit: int,
    backward: bool,
    page: ReadResult<Event>,
) -> bool {
    let rows = if backward {
        backward_page(evs, ty, id, cur, limit)
    } else {
        forward_page(evs, ty, id, cur, limit)
    };
    let more = if backward {
        backward_has_more(evs, ty, id, cur, limit)
    } else {
        forward_has_more(evs, ty, id, cur, limit)
    };
    &&& page.edges@.len() == rows.len()
    &&& forall|x: int|
        0 <= x < rows.len() ==> (#[trigger] page.edges@[x]).node@ == rows[x]
            && page.edges@[x].cursor@ == crate::codec::cursor_encoding(key_of(rows[x]))
    &&& page.page_info.has_next_page == (!backward && more)
    &&& page.page_info.has_previous_page == (backward && more)
    &&& if backward {
        &&& page.page_info.end_cursor is None
        &&& match page.page_info.start_cursor {
            Some(ref v) => rows.len() > 0 && v@ == crate::codec::cursor_encoding(key_of(rows[0])),
            None => rows.len() == 0,
        }
    } else {
        &&& page.page_info.start_cursor is None
        &&& match page.page_info.end_cursor {
            Some(ref v) => rows.len() > 0 && v@ == crate::codec::cursor_encoding(
                key_of(rows.last()),
            ),
            None => rows.len() == 0,
        }
    }
}

/// Appending a batch the write checks accept keeps the log well-formed.
proof fn lemma_append_preserves_wf(evs: Seq<EventView>, b: Seq<EventView>)
    requires
        events_wf(evs),
        b.len() > 0,
        batch_tyid_uniform(b),
        batch_versions_ok(evs, b),
        batch_rest_ok(evs, b),
    ensures
        events_wf(evs + b),
{
    broadcast use Seq::lemma_filter_pred;

    let ty = b[0].aggregate_type;
    let id = b[0].aggregate_id;
    let s = stream_of(evs, ty, id);
    let c = evs + b;
    let n = evs.len() as int;
    assert forall|k: int, l: int|
        #![trigger c[k], c[l]]
        0 <= k < l < c.len() && same_agg(c[k], c[l]) implies c[k].version < c[l].version && c[k].timestamp <= c[l].timestamp && c[k].routing_key == c[l].routing_key by {
        if l < n {
            assert(c[k] == evs[k] && c[l] == evs[l]);
        } else if k >= n {
            assert(c[k] == b[k - n] && c[l] == b[l - n]);
        } else {
            assert(c[k] == evs[k] && c[l] == b[l - n]);
            assert(in_stream(evs[k], ty, id));
            lemma_stream_last_bounds(evs, ty, id, k);
        }
    }
    assert forall|k: int| 0 <= k < c.len() implies 1 <= (#[trigger] c[k]).version by {
        if k >= n {
            assert(c[k] == b[k - n]);
            assert(b[k - n].version == last_version_of(evs, ty, id) + 1 + (k - n));
            assert(last_version_of(evs, ty, id) >= 0);
        }
    }
    assert forall|k: int|
        0 <= k < c.len() && (#[trigger] c[k]).version > 1 implies exists|l: int|
        0 <= l < c.len() && same_agg(#[trigger] c[l], c[k]) && c[l].version + 1 == c[k].version by {
        if k < n {
            let l = choose|l: int|
                0 <= l < evs.len() && same_agg(#[trigger] evs[l], evs[k]) && evs[l].version + 1
                    == evs[k].version;
            assert(c[l] == evs[l] && c[k] == evs[k]);
            assert(same_agg(c[l], c[k]) && c[l].version + 1 == c[k].version);
        } else {
            let jj = k - n;
            assert(c[k] == b[jj]);
            if jj > 0 {
                assert(c[n + jj - 1] == b[jj - 1]);
                assert(same_agg(c[n + jj - 1], c[k]) && c[n + jj - 1].version + 1 == c[k].version);
            } else {
                // the first batch event extends the stream's newest event
                assert(b[0].version == last_version_of(evs, ty, id) + 1);
                assert(last_version_of(evs, ty, id) >= 1);
                assert(s.len() > 0);
                lemma_filter_sub(evs, |e: EventView| in_stream(e, ty, id), s.len() - 1);
                let i = choose|i: int| 0 <= i < evs.len() && evs[i] == s.last();
                assert(in_stream(s.last(), ty, id));
                assert(c[i] == evs[i]);
                assert(same_agg(c[i], c[k]) && c[i].version + 1 == c[k].version);
            }
        }
    }
    assert forall|k: int, l: int|
        #![trigger c[k].id, c[l].id]
        0 <= k < l < c.len() implies c[k].id != c[l].id by {
        if l < n {
            assert(c[k] == evs[k] && c[l] == evs[l]);
            assert(evs[k].id != evs[l].id);
        } else if k >= n {
            assert(c[k] == b[k - n] && c[l] == b[l - n]);
            assert(b[k - n].id != b[l - n].id);
        } else {
            assert(c[k] == evs[k] && c[l] == b[l - n]);
            assert(b[l - n].id != evs[k].id);
        }
    }
}

/// Every event of an aggregate is bounded by the newest event of its stream:
/// its version and timestamp are no larger, and its routing key is the same.
pub proof fn lemma_stream_last_bounds(evs: Seq<EventView>, ty: Seq<char>, id: u128, k: int)
    requires
        events_wf(evs),
        0 <= k < evs.len(),
        in_stream(evs[k], ty, id),
    ensures
        stream_of(evs, ty, id).len() > 0,
        evs[k].version <= stream_of(evs, ty, id).last().version,
        evs[k].timestamp <= stream_of(evs, ty, id).last().timestamp,
        evs[k].routing_key == stream_of(evs, ty, id).last().routing_key,
{
    broadcast use Seq::lemma_filter_pred;

    let p = |e: EventView| in_stream(e, ty, id);
    let s = stream_of(evs, ty, id);
    Seq::lemma_filter_contains(evs, p, k);
    assert(s.contains(evs[k]));
    let m = choose|m: int| 0 <= m < s.len() && s[m] == evs[k];
    if m < s.len() - 1 {
        lemma_filter_pairwise(
            evs,
            p,
            |a: EventView, bb: EventView|
                a.version <= bb.version && a.timestamp <= bb.timestamp && a.routing_key
                    == bb.routing_key,
        );
        assert(s[m].version <= s[s.len() - 1].version && s[m].timestamp <= s[s.len()
            - 1].timestamp && s[m].routing_key == s[s.len() - 1].routing_key);
    } else {
        assert(s[m] == s.last());
    }
}

/// Filtering a sequence extended by one element.
pub proof fn lemma_filter_push<T>(s: Seq<T>, e: T, p: spec_fn(T) -> bool)
    ensures
        s.push(e).filter(p) == if p(e) {
            s.filter(p).push(e)
        } else {
            s.filter(p)
        },
{
    reveal(Seq::filter);
    assert(s.push(e).drop_last() =~= s);
    assert(s.push(e).last() == e);
    assert(s.push(e).len() == s.len() + 1);
}

/// Every element of a filtered sequence stands somewhere in the original.
pub proof fn lemma_filter_sub<T>(s: Seq<T>, p: spec_fn(T) -> bool, k: int)
    requires
        0 <= k < s.filter(p).len(),
    ensures
        exists|i: int| 0 <= i < s.len() && s[i] == s.filter(p)[k],
    decreases s.len(),
{
    reveal(Seq::filter);
    if s.len() > 0 {
        let f = s.filter(p);
        let sub = s.drop_last().filter(p);
        if p(s.last()) && k == f.len() - 1 {
            assert(s[s.len() - 1] == f[k]);
        } else {
            lemma_filter_sub(s.drop_last(), p, k);
            let i = choose|i: int| 0 <= i < s.drop_last().len() && s.drop_last()[i] == sub[k];
            assert(s[i] == s.filter(p)[k]);
        }
    }
}

/// A pairwise relation that holds on the matching elements of a sequence
/// holds on its filtered form.
pub proof fn lemma_filter_pairwise<T>(s: Seq<T>, p: spec_fn(T) -> bool, r: spec_fn(T, T) -> bool)
    requires
        forall|x: int, y: int|
            #![trigger s[x], s[y]]
            0 <= x < y < s.len() && p(s[x]) && p(s[y]) ==> r(s[x], s[y]),
    ensures
        forall|k: int, l: int|
            #![trigger s.filter(p)[k], s.filter(p)[l]]
            0 <= k < l < s.filter(p).len() ==> r(s.filter(p)[k], s.filter(p)[l]),
    decreases s.len(),
{
    broadcast use Seq::lemma_filter_pred;

    reveal(Seq::filter);
    if s.len() > 0 {
        let s0 = s.drop_last();
        let e = s.last();
        let f0 = s0.filter(p);
        let f = s.filter(p);
        assert forall|x: int, y: int|
            #![trigger s0[x], s0[y]]
            0 <= x < y < s0.len() && p(s0[x]) && p(s0[y]) implies r(s0[x], s0[y]) by {
            assert(s0[x] == s[x]);
            assert(s0[y] == s[y]);
        }
        lemma_filter_pairwise(s0, p, r);
        assert forall|k: int, l: int| 0 <= k < l < f.len() implies r(f[k], f[l]) by {
            if p(e) {
                assert(f == f0.push(e));
                if l < f.len() - 1 {
                    assert(f[k] == f0[k] && f[l] == f0[l]);
                } else {
                    assert(f[l] == e);
                    assert(f[k] == f0[k]);
                    lemma_filter_sub(s0, p, k);
                    let i = choose|i: int| 0 <= i < s0.len() && s0[i] == f0[k];
                    assert(s[i] == f0[k] && p(s[i]));
                    assert(r(s[i], s[s.len() - 1]));
                }
            } else {
                assert(f == f0);
            }
        }
    }
}

/// Filtering twice filters by the conjunction.
pub proof fn lemma_filter_filter<T>(
    s: Seq<T>,
    p: spec_fn(T) -> bool,
    q: spec_fn(T) -> bool,
    pq: spec_fn(T) -> bool,
)
    requires
        forall|x: T| #[trigger] pq(x) == (p(x) && q(x)),
    ensures
        s.filter(p).filter(q) == s.filter(pq),
    decreases s.len(),
{
    reveal(Seq::filter);
    if s.len() > 0 {
        let s0 = s.drop_last();
        let e = s.last();
        lemma_filter_filter(s0, p, q, pq);
        if p(e) {
            lemma_filter_push(s0.filter(p), e, q);
        }
        assert(s0.push(e) =~= s);
    }
}

} // verus!

verus! {

impl EventStore {
    /// Read one page of an aggregate's events, driven by keyset pagination.
    ///
    /// Edges always come back in ascending `(timestamp, version, id)` order;
    /// a backward page is the tail of the rows before the cursor. A cursor
    /// produced by this store always decodes; `MalformedCursor` can only
    /// answer a cursor that did not come from the codec.
    #[verifier::loop_isolation(false)]
    pub fn read<A: crate::agg::Aggregator>(&self, id: u128, args: &Args) -> (r: Result<
        ReadResult<Event>,
        ReadError,
    >)
        requires
            self.wf(),
        ensures
            read_result_ok(self.evs(), A::spec_name(), id, *args, r),
    {
        let ty = A::name().to_owned();
        self.read_stream(&ty, id, args)
    }

    /// The non-generic core of [`EventStore::read`].
    #[verifier::loop_isolation(false)]
    #[verifier::rlimit(100)]
    pub(crate) fn read_stream(&self, ty: &String, id: u128, args: &Args) -> (r: Result<
        ReadResult<Event>,
        ReadError,
    >)
        requires
            self.wf(),
        ensures
            read_result_ok(self.evs(), ty@, id, *args, r),
    {
        let backward = args.is_backward();
        let (limit0, curv) = args.get_info();
        let limit: u16 = if limit0 > MAX_LIMIT {
            MAX_LIMIT
        } else {
            limit0
        };
        let limit_us: usize = limit as usize;
        let cur: Option<EventCursor> = match &curv {
            Some(v) => match crate::codec::decode_cursor(v) {
                Some(k) => Some(k),
                None => {
                    proof {
                        assert forall|k: EventCursor|
                            args.spec_cursor() != Some(
                                crate::codec::cursor_encoding(k),
                            ) by {}
                    }
                    return Err(ReadError::MalformedCursor);
                },
            },
            None => None,
        };
        proof {
            assert(self.evs().take(self.events@.len() as int) =~= self.evs());
        }

        let mut rows: Vec<Event> = Vec::new();
        let mut i: usize = 0;
        if !backward {
            while i < self.events.len() && rows.len() <= limit_us
                invariant
                    i <= self.events@.len(),
                    rows@.len() <= limit_us + 1,
                    views_of(rows@) == forward_rows(self.evs().take(i as int), ty@, id, cur),
                decreases self.events@.len() - i,
            {
                proof {
                    assert(self.evs()[i as int] == self.events@[i as int]@);
                    assert(self.evs().take(i + 1 as int) =~= self.evs().take(i as int).push(
                        self.evs()[i as int],
                    ));
                    match cur {
                        Some(k) => {
                            lemma_filter_push(
                                self.evs().take(i as int),
                                self.evs()[i as int],
                                |e: EventView| in_stream(e, ty@, id) && key_lt(k, key_of(e)),
                            );
                        },
                        None => {
                            lemma_filter_push(
                                self.evs().take(i as int),
                                self.evs()[i as int],
                                |e: EventView| in_stream(e, ty@, id),
                            );
                        },
                    }
                }
                let e = &self.events[i];
                let mut keep: bool = e.aggregate_type == *ty && e.aggregate_id == id;
                match &cur {
                    Some(k) => {
                        if !crate::key_less(k, &e.key()) {
                            keep = false;
                        }
                    },
                    None => {},
                }
                if keep {
                    let ghost pre = rows@;
                    rows.push(e.clone());
                    proof {
                        assert(views_of(rows@) =~= views_of(pre).push(self.evs()[i as int]));
                    }
                }
                i += 1;
            }
            proof {
                assert(rows@.len() == limit_us + 1 || i == self.events@.len());
            }
        } else {
            while i < self.events.len()
                invariant
                    i <= self.events@.len(),
                    views_of(rows@) == backward_rows(self.evs().take(i as int), ty@, id, cur),
                decreases self.events@.len() - i,
            {
                proof {
                    assert(self.evs()[i as int] == self.events@[i as int]@);
                    assert(self.evs().take(i + 1 as int) =~= self.evs().take(i as int).push(
                        self.evs()[i as int],
                    ));
                    match cur {
                        Some(k) => {
                            lemma_filter_push(
                                self.evs().take(i as int),
                                self.evs()[i as int],
                                |e: EventView| in_stream(e, ty@, id) && key_lt(key_of(e), k),
                            );
                        },
                        None => {
                            lemma_filter_push(
                                self.evs().take(i as int),
                                self.evs()[i as int],
                                |e: EventView| in_stream(e, ty@, id),
                            );
                        },
                    }
                }
                let e = &self.events[i];
                let mut keep: bool = e.aggregate_type == *ty && e.aggregate_id == id;
                match &cur {
                    Some(k) => {
                        if !crate::key_less(&e.key(), k) {
                            keep = false;
                        }
                    },
                    None => {},
                }
                if keep {
                    let ghost pre = rows@;
                    rows.push(e.clone());
                    proof {
                        assert(views_of(rows@) =~= views_of(pre).push(self.evs()[i as int]));
                    }
                }
                i += 1;
            }
        }

        let page = if !backward {
            proof {
                let t = forward_rows(self.evs(), ty@, id, cur);
                if rows@.len() == limit_us + 1 {
                    lemma_forward_rows_prefix_full(
                        self.evs(),
                        ty@,
                        id,
                        cur,
                        i as int,
                        limit_us + 1 as int,
                    );
                } else {
                    assert(views_of(rows@) == t);
                    assert(t.take(t.len() as int) =~= t);
                }
                assert(views_of(rows@) == forward_rows_probe(
                    self.evs(),
                    ty@,
                    id,
                    cur,
                    limit_us + 1 as int,
                ));
            }
            let has_more = rows.len() > limit_us;
            if has_more {
                let ghost pre = rows@;
                rows.pop();
                proof {
                    assert(views_of(rows@) =~= views_of(pre).drop_last());
                    let t = forward_rows(self.evs(), ty@, id, cur);
                    assert(t.take(limit_us + 1 as int).drop_last() =~= t.take(limit_us as int));
                }
            }
            proof {
                let t = forward_rows(self.evs(), ty@, id, cur);
                if t.len() <= limit_us as int {
                    assert(t.take(t.len() as int) =~= t);
                }
                assert(views_of(rows@) == forward_page(
                    self.evs(),
                    ty@,
                    id,
                    cur,
                    limit_us as int,
                ));
            }
            let mut edges: Vec<Edge<Event>> = Vec::new();
            let mut x: usize = 0;
            while x < rows.len()
                invariant
                    x <= rows@.len(),
                    edges@.len() == x,
                    forall|y: int|
                        0 <= y < x ==> (#[trigger] edges@[y]).node@ == views_of(rows@)[y]
                            && edges@[y].cursor@ == crate::codec::cursor_encoding(
                            key_of(views_of(rows@)[y]),
                        ),
                decreases rows@.len() - x,
            {
                proof {
                    assert(views_of(rows@)[x as int] == rows@[x as int]@);
                }
                let n = rows[x].clone();
                let c = crate::codec::encode_cursor(&n.key());
                edges.push(Edge { cursor: c, node: n });
                x += 1;
            }
            let end_cursor = if edges.len() > 0 {
                Some(edges[edges.len() - 1].cursor.clone())
            } else {
                None
            };
            ReadResult {
                edges,
                page_info: PageInfo {
                    has_previous_page: false,
                    has_next_page: has_more,
                    start_cursor: None,
                    end_cursor,
                },
            }
        } else {
            let has_more = rows.len() > limit_us;
            let start: usize = if rows.len() > limit_us {
                rows.len() - limit_us
            } else {
                0
            };
            let mut edges: Vec<Edge<Event>> = Vec::new();
            let mut x: usize = start;
            while x < rows.len()
                invariant
                    start <= x <= rows@.len(),
                    edges@.len() == x - start,
                    forall|y: int|
                        0 <= y < x - start ==> (#[trigger] edges@[y]).node@ == views_of(rows@)[y
                            + start] && edges@[y].cursor@ == crate::codec::cursor_encoding(
                            key_of(views_of(rows@)[y + start]),
                        ),
                decreases rows@.len() - x,
            {
                proof {
                    assert(views_of(rows@)[x as int] == rows@[x as int]@);
                }
                let n = rows[x].clone();
                let c = crate::codec::encode_cursor(&n.key());
                edges.push(Edge { cursor: c, node: n });
                x += 1;
            }
            proof {
                let t = backward_rows(self.evs(), ty@, id, cur);
                assert(views_of(rows@) == t);
                let sk = if t.len() <= limit_us as int {
                    0
                } else {
                    t.len() - limit_us as int
                };
                assert(start as int == sk);
                assert forall|y: int|
                    0 <= y < t.skip(sk).len() implies t.skip(sk)[y] == views_of(rows@)[y
                    + start] by {}
            }
            let start_cursor = if edges.len() > 0 {
                Some(edges[0].cursor.clone())
            } else {
                None
            };
            ReadResult {
                edges,
                page_info: PageInfo {
                    has_previous_page: has_more,
                    has_next_page: false,
                    start_cursor,
                    end_cursor: None,
                },
            }
        };
        proof {
            assert(page_ok(self.evs(), ty@, id, cur, limit as int, backward, page));
            match args.spec_cursor() {
                Some(c) => {
                    assert forall|k: EventCursor|
                        c == crate::codec::cursor_encoding(k) implies page_ok(
                        self.evs(),
                        ty@,
                        id,
                        Some(k),
                        limit as int,
                        backward,
                        page,
                    ) by {
                        assert(cur == Some(k));
                    }
                },
                None => {},
            }
        }
        Ok(page)
    }
}

/// The forward scan's probe: the first `cap` rows after the cursor.
pub open spec fn forward_rows_probe(
    evs: Seq<EventView>,
    ty: Seq<char>,
    id: u128,
    cur: Option<EventCursor>,
    cap: int,
) -> Seq<EventView> {
    let t = forward_rows(evs, ty, id, cur);
    t.take(if t.len() <= cap {
        t.len() as int
    } else {
        cap
    })
}

/// Once a prefix of the log already yields `cap` rows, the whole log's first
/// `cap` rows are exactly those.
proof fn lemma_forward_rows_prefix_full(
    evs: Seq<EventView>,
    ty: Seq<char>,
    id: u128,
    cur: Option<EventCursor>,
    i: int,
    cap: int,
)
    requires
        0 <= i <= evs.len(),
        forward_rows(evs.take(i), ty, id, cur).len() == cap,
    ensures
        forward_rows_probe(evs, ty, id, cur, cap) == forward_rows(evs.take(i), ty, id, cur),
{
    assert(evs =~= evs.take(i) + evs.skip(i));
    match cur {
        Some(k) => {
            Seq::filter_distributes_over_add(
                evs.take(i),
                evs.skip(i),
                |e: EventView| in_stream(e, ty, id) && key_lt(k, key_of(e)),
            );
        },
        None => {
            Seq::filter_distributes_over_add(
                evs.take(i),
                evs.skip(i),
                |e: EventView| in_stream(e, ty, id),
            );
        },
    }
    let pre = forward_rows(evs.take(i), ty, id, cur);
    let t = forward_rows(evs, ty, id, cur);
    assert(t.len() >= cap);
    assert(t.take(cap) =~= pre);
}

/// What [`EventStore::read_stream`] returns: a page over the decoded cursor.
///
/// Only a string outside the codec's image may be refused as
/// `MalformedCursor`; arguments without a cursor, or with one the codec
/// produced, always succeed.
pub open spec fn read_result_ok(
    evs: Seq<EventView>,
    ty: Seq<char>,
    id: u128,
    args: Args,
    r: Result<ReadResult<Event>, ReadError>,
) -> bool {
    let limit = effective_limit(args) as int;
    let backward = args.spec_is_backward();
    &&& match args.spec_cursor() {
        None => r matches Ok(page) && page_ok(evs, ty, id, None, limit, backward, page),
        Some(c) => match crate::codec::cursor_decoding(c) {
            Some(k) => r matches Ok(page) && page_ok(evs, ty, id, Some(k), limit, backward, page),
            None => r == Err::<ReadResult<Event>, ReadError>(ReadError::MalformedCursor),
        },
    }
    &&& match r {
        Ok(page) => match args.spec_cursor() {
            None => true,
            Some(c) => forall|k: EventCursor|
                c == crate::codec::cursor_encoding(k) ==> page_ok(
                    evs,
                    ty,
                    id,
                    Some(k),
                    limit,
                    backward,
                    page,
                ),
        },
        Err(e) => e == ReadError::MalformedCursor && args.spec_cursor() is Some && forall|
            k: EventCursor,
        |
            args.spec_cursor() != Some(crate::codec::cursor_encoding(k)),
    }
}

} // verus!

verus! {

/// Whether the log holds an event of aggregate type `ty` whose sort key is `k`.
pub open spec fn has_event_at(evs: Seq<EventView>, ty: Seq<char>, k: EventCursor) -> bool {
    exists|l: int|
        0 <= l < evs.len() && (#[trigger] evs[l]).aggregate_type == ty && key_of(evs[l]) == k
}

/// What [`EventStore::get_event`] returns for a cursor string: the event the
/// decoded key addresses, `NotFound` when no such event exists, and
/// `MalformedCursor` only for a string outside the codec's image.
pub open spec fn get_event_ok(
    evs: Seq<EventView>,
    ty: Seq<char>,
    c: Seq<char>,
    r: Result<Event, ReadError>,
) -> bool {
    &&& match crate::codec::cursor_decoding(c) {
        Some(k) => match r {
            Ok(e) => evs.contains(e@) && e@.aggregate_type == ty && key_of(e@) == k,
            Err(err) => err == ReadError::NotFound && !has_event_at(evs, ty, k),
        },
        None => r == Err::<Event, ReadError>(ReadError::MalformedCursor),
    }
    &&& match r {
        Ok(e) => forall|k: EventCursor|
            c == crate::codec::cursor_encoding(k) ==> evs.contains(e@) && e@.aggregate_type == ty
                && key_of(e@) == k,
        Err(err) => {
            ||| (err == ReadError::NotFound && forall|k: EventCursor|
                c == crate::codec::cursor_encoding(k) ==> !has_event_at(evs, ty, k))
            ||| (err == ReadError::MalformedCursor && forall|k: EventCursor|
                c != crate::codec::cursor_encoding(k))
        },
    }
}

/// The snapshot of the aggregate `(ty, id)`, if one is persisted.
pub open spec fn snap_of(snaps: Seq<SnapshotView>, ty: Seq<char>, id: u128) -> Option<
    SnapshotView,
> {
    if exists|l: int|
        0 <= l < snaps.len() && (#[trigger] snaps[l]).aggregate_type == ty
            && snaps[l].aggregate_id == id {
        Some(
            snaps[choose|l: int|
                0 <= l < snaps.len() && (#[trigger] snaps[l]).aggregate_type == ty
                    && snaps[l].aggregate_id == id],
        )
    } else {
        None
    }
}

impl EventStore {
    /// Recover the event a cursor addresses: the anchor the loader falls back
    /// to when a snapshot is already up to date.
    #[verifier::loop_isolation(false)]
    pub fn get_event<A: crate::agg::Aggregator>(&self, cursor: &Value) -> (r: Result<
        Event,
        ReadError,
    >)
        requires
            self.wf(),
        ensures
            get_event_ok(self.evs(), A::spec_name(), cursor@, r),
    {
        let k = match crate::codec::decode_cursor(cursor) {
            Some(k) => k,
            None => {
                return Err(ReadError::MalformedCursor);
            },
        };
        let ty = A::name().to_owned();
        let mut i: usize = 0;
        while i < self.events.len()
            invariant
                i <= self.events@.len(),
                forall|l: int|
                    0 <= l < i ==> !((#[trigger] self.evs()[l]).aggregate_type == ty@ && key_of(
                        self.evs()[l],
                    ) == k),
            decreases self.events@.len() - i,
        {
            proof {
                assert(self.evs()[i as int] == self.events@[i as int]@);
            }
            let e = &self.events[i];
            if e.aggregate_type == ty && e.timestamp == k.t && e.version == k.v && e.id == k.i {
                let found = e.clone();
                proof {
                    assert(key_of(found@) == k);
                    assert(self.evs().contains(found@));
                }
                return Ok(found);
            }
            i += 1;
        }
        proof {
            assert forall|kk: EventCursor|
                cursor@ == crate::codec::cursor_encoding(kk) implies !has_event_at(
                self.evs(),
                A::spec_name(),
                kk,
            ) by {
                assert(kk == k);
            }
        }
        Err(ReadError::NotFound)
    }

    /// The persisted snapshot of an aggregate, as `(body bytes, cursor)`, but
    /// only when its revision matches the aggregate's current fold; a stale
    /// snapshot is ignored, not deleted.
    #[verifier::loop_isolation(false)]
    pub fn get_snapshot<A: crate::agg::Aggregator>(&self, id: u128) -> (r: Result<
        Option<(Vec<u8>, Value)>,
        ReadError,
    >)
        requires
            self.wf(),
        ensures
            match r {
                Ok(Some((data, cv))) => match snap_of(self.snaps(), A::spec_name(), id) {
                    Some(s) => s.revision == A::spec_revision() && data@ == s.data && cv@
                        == crate::codec::cursor_encoding(s.cursor),
                    None => false,
                },
                Ok(None) => match snap_of(self.snaps(), A::spec_name(), id) {
                    Some(s) => s.revision != A::spec_revision(),
                    None => true,
                },
                Err(_) => false,
            },
    {
        let ty = A::name().to_owned();
        let revision = A::revision().to_owned();
        let mut i: usize = 0;
        while i < self.snapshots.len()
            invariant
                i <= self.snapshots@.len(),
                forall|l: int|
                    0 <= l < i ==> !((#[trigger] self.snaps()[l]).aggregate_type == ty@
                        && self.snaps()[l].aggregate_id == id),
            decreases self.snapshots@.len() - i,
        {
            proof {
                assert(self.snaps()[i as int] == self.snapshots@[i as int]@);
            }
            let s = &self.snapshots[i];
            if s.aggregate_type == ty && s.aggregate_id == id {
                proof {
                    let ghost li = i as int;
                    assert(0 <= li < self.snaps().len() && (#[trigger] self.snaps()[li]).aggregate_type
                        == A::spec_name() && self.snaps()[li].aggregate_id == id);
                    let w = choose|l: int|
                        0 <= l < self.snaps().len() && (#[trigger] self.snaps()[l]).aggregate_type
                            == A::spec_name() && self.snaps()[l].aggregate_id == id;
                    assert(w == li);
                }
                if s.revision == revision {
                    let data = s.data.clone();
                    let cv = crate::codec::encode_cursor(&s.cursor);
                    return Ok(Some((data, cv)));
                } else {
                    return Ok(None);
                }
            }
            i += 1;
        }
        Ok(None)
    }

    /// Upsert the snapshot of an aggregate: insert on first write, replace
    /// body, cursor and revision on conflict.
    #[verifier::loop_isolation(false)]
    pub fn save_snapshot<A: crate::agg::Aggregator>(
        &mut self,
        id: u128,
        data: Vec<u8>,
        cursor: EventCursor,
    ) -> (r: Result<(), WriteError>)
        requires
            old(self).wf(),
        ensures
            final(self).wf(),
            r is Ok,
            final(self).evs() == old(self).evs(),
            final(self).offs() == old(self).offs(),
            snap_of(final(self).snaps(), A::spec_name(), id) == Some(
                SnapshotView {
                    aggregate_type: A::spec_name(),
                    aggregate_id: id,
                    cursor,
                    revision: A::spec_revision(),
                    data: data@,
                },
            ),
            forall|ty2: Seq<char>, id2: u128|
                !(ty2 == A::spec_name() && id2 == id) ==> #[trigger] snap_of(
                    final(self).snaps(),
                    ty2,
                    id2,
                ) == snap_of(old(self).snaps(), ty2, id2),
    {
        let row = Snapshot {
            aggregate_type: A::name().to_owned(),
            aggregate_id: id,
            cursor,
            revision: A::revision().to_owned(),
            data,
        };
        let ghost new_view = row@;
        let ghost osnaps = self.snaps();
        let mut i: usize = 0;
        while i < self.snapshots.len()
            invariant
                i <= self.snapshots@.len(),
                osnaps == self.snaps(),
                *self == *old(self),
                forall|l: int|
                    0 <= l < i ==> !((#[trigger] self.snaps()[l]).aggregate_type == new_view.aggregate_type
                        && self.snaps()[l].aggregate_id == id),
            decreases self.snapshots@.len() - i,
        {
            proof {
                assert(self.snaps()[i as int] == self.snapshots@[i as int]@);
            }
            if self.snapshots[i].aggregate_type == row.aggregate_type
                && self.snapshots[i].aggregate_id == id {
                self.snapshots.remove(i);
                self.snapshots.insert(i, row);
                proof {
                    assert(self.snaps() =~= osnaps.update(i as int, new_view));
                    lemma_snap_upsert(osnaps, i as int, new_view, old(self).wf_snaps_only());
                }
                return Ok(());
            }
            i += 1;
        }
        self.snapshots.push(row);
        proof {
            assert(self.snaps() =~= osnaps.push(new_view));
            assert(snap_of(self.snaps(), new_view.aggregate_type, id) == Some(new_view)) by {
                let li = osnaps.len() as int;
                assert(0 <= li < self.snaps().len() && (#[trigger] self.snaps()[li]).aggregate_type
                    == new_view.aggregate_type && self.snaps()[li].aggregate_id == id);
                let w = choose|l: int|
                    0 <= l < self.snaps().len() && (#[trigger] self.snaps()[l]).aggregate_type
                        == new_view.aggregate_type && self.snaps()[l].aggregate_id == id;
                if w < li {
                    assert(osnaps[w] == self.snaps()[w]);
                }
            }
            assert forall|ty2: Seq<char>, id2: u128|
                !(ty2 == new_view.aggregate_type && id2 == id) implies #[trigger] snap_of(
                self.snaps(),
                ty2,
                id2,
            ) == snap_of(osnaps, ty2, id2) by {
                lemma_snap_other(osnaps, self.snaps(), ty2, id2);
            }
        }
        Ok(())
    }

    /// The snapshot-key uniqueness part of [`EventStore::wf`], on its own.
    pub open spec fn wf_snaps_only(&self) -> bool {
        forall|k: int, l: int|
            #![trigger self.snaps()[k], self.snaps()[l]]
            0 <= k < l < self.snaps().len() ==> !(self.snaps()[k].aggregate_type
                == self.snaps()[l].aggregate_type && self.snaps()[k].aggregate_id
                == self.snaps()[l].aggregate_id)
    }
}

/// Updating the one row that carries a snapshot key keeps lookups of that key
/// pointed at the new row and every other key's lookup unchanged.
proof fn lemma_snap_upsert(snaps: Seq<SnapshotView>, i: int, nv: SnapshotView, wf: bool)
    requires
        0 <= i < snaps.len(),
        snaps[i].aggregate_type == nv.aggregate_type,
        snaps[i].aggregate_id == nv.aggregate_id,
        forall|k: int, l: int|
            #![trigger snaps[k], snaps[l]]
            0 <= k < l < snaps.len() ==> !(snaps[k].aggregate_type == snaps[l].aggregate_type
                && snaps[k].aggregate_id == snaps[l].aggregate_id),
    ensures
        snap_of(snaps.update(i, nv), nv.aggregate_type, nv.aggregate_id) == Some(nv),
        forall|ty2: Seq<char>, id2: u128|
            !(ty2 == nv.aggregate_type && id2 == nv.aggregate_id) ==> #[trigger] snap_of(
                snaps.update(i, nv),
                ty2,
                id2,
            ) == snap_of(snaps, ty2, id2),
        forall|k: int, l: int|
            #![trigger snaps.update(i, nv)[k], snaps.update(i, nv)[l]]
            0 <= k < l < snaps.update(i, nv).len() ==> !(snaps.update(i, nv)[k].aggregate_type
                == snaps.update(i, nv)[l].aggregate_type && snaps.update(i, nv)[k].aggregate_id
                == snaps.update(i, nv)[l].aggregate_id),
{
    let up = snaps.update(i, nv);
    assert(up[i] == nv);
    assert(snap_of(up, nv.aggregate_type, nv.aggregate_id) == Some(nv)) by {
        let w = choose|l: int|
            0 <= l < up.len() && (#[trigger] up[l]).aggregate_type == nv.aggregate_type
                && up[l].aggregate_id == nv.aggregate_id;
        if w != i {
            assert(up[w] == snaps[w]);
            assert(snaps[i].aggregate_type == nv.aggregate_type);
        }
    }
    assert forall|k: int, l: int|
        #![trigger up[k], up[l]]
        0 <= k < l < up.len() implies !(up[k].aggregate_type == up[l].aggregate_type
        && up[k].aggregate_id == up[l].aggregate_id) by {
        if k != i && l != i {
            assert(up[k] == snaps[k] && up[l] == snaps[l]);
        } else if k == i {
            assert(up[l] == snaps[l]);
            assert(snaps[i].aggregate_type == nv.aggregate_type);
        } else {
            assert(up[k] == snaps[k]);
            assert(snaps[i].aggregate_type == nv.aggregate_type);
        }
    }
    assert forall|ty2: Seq<char>, id2: u128|
        !(ty2 == nv.aggregate_type && id2 == nv.aggregate_id) implies #[trigger] snap_of(
        up,
        ty2,
        id2,
    ) == snap_of(snaps, ty2, id2) by {
        lemma_snap_other(snaps, up, ty2, id2);
    }
}

/// Two snapshot tables that agree on every row of a key agree on that key's
/// lookup; used where only one unrelated row changed or was appended.
proof fn lemma_snap_other(a: Seq<SnapshotView>, b: Seq<SnapshotView>, ty2: Seq<char>, id2: u128)
    requires
        forall|k: int, l: int|
            #![trigger a[k], a[l]]
            0 <= k < l < a.len() ==> !(a[k].aggregate_type == a[l].aggregate_type
                && a[k].aggregate_id == a[l].aggregate_id),
        forall|k: int, l: int|
            #![trigger b[k], b[l]]
            0 <= k < l < b.len() ==> !(b[k].aggregate_type == b[l].aggregate_type
                && b[k].aggregate_id == b[l].aggregate_id),
        forall|l: int|
            0 <= l < a.len() && ((#[trigger] a[l]).aggregate_type == ty2 && a[l].aggregate_id
                == id2) ==> l < b.len() && b[l] == a[l],
        forall|l: int|
            0 <= l < b.len() && ((#[trigger] b[l]).aggregate_type == ty2 && b[l].aggregate_id
                == id2) ==> l < a.len() && a[l] == b[l],
    ensures
        snap_of(b, ty2, id2) == snap_of(a, ty2, id2),
{
    if exists|l: int|
        0 <= l < a.len() && (#[trigger] a[l]).aggregate_type == ty2 && a[l].aggregate_id == id2 {
        let la = choose|l: int|
            0 <= l < a.len() && (#[trigger] a[l]).aggregate_type == ty2 && a[l].aggregate_id
                == id2;
        assert(b[la] == a[la]);
        let lb = choose|l: int|
            0 <= l < b.len() && (#[trigger] b[l]).aggregate_type == ty2 && b[l].aggregate_id
                == id2;
        assert(a[lb] == b[lb]);
        assert(la == lb);
        assert(snap_of(a, ty2, id2) == Some(a[la]));
        assert(snap_of(b, ty2, id2) == Some(b[lb]));
    } else {
        if exists|l: int|
            0 <= l < b.len() && (#[trigger] b[l]).aggregate_type == ty2 && b[l].aggregate_id
                == id2 {
            let lb = choose|l: int|
                0 <= l < b.len() && (#[trigger] b[l]).aggregate_type == ty2 && b[l].aggregate_id
                    == id2;
            assert(a[lb] == b[lb]);
        }
    }
}

} // verus!

verus! {

/// The events of one aggregate are strictly ordered: along its stream,
/// versions increase, timestamps never decrease, and the routing key is
/// constant.
pub proof fn lemma_stream_sorted(evs: Seq<EventView>, ty: Seq<char>, id: u128)
    requires
        events_wf(evs),
    ensures
        forall|k: int, l: int|
            #![trigger stream_of(evs, ty, id)[k], stream_of(evs, ty, id)[l]]
            0 <= k < l < stream_of(evs, ty, id).len() ==> stream_of(evs, ty, id)[k].version
                < stream_of(evs, ty, id)[l].version && stream_of(evs, ty, id)[k].timestamp
                <= stream_of(evs, ty, id)[l].timestamp && stream_of(evs, ty, id)[k].routing_key
                == stream_of(evs, ty, id)[l].routing_key,
{
    lemma_filter_pairwise(
        evs,
        |e: EventView| in_stream(e, ty, id),
        |a: EventView, b: EventView|
            a.version < b.version && a.timestamp <= b.timestamp && a.routing_key == b.routing_key,
    );
}

/// For every aggregate, all its events share one routing key.
pub proof fn lemma_one_routing_key(evs: Seq<EventView>, ty: Seq<char>, id: u128, k: int, l: int)
    requires
        events_wf(evs),
        0 <= k < stream_of(evs, ty, id).len(),
        0 <= l < stream_of(evs, ty, id).len(),
    ensures
        stream_of(evs, ty, id)[k].routing_key == stream_of(evs, ty, id)[l].routing_key,
{
    lemma_stream_sorted(evs, ty, id);
}

/// For every aggregate, the persisted versions are exactly `1, 2, …, n`: the
/// event at position `j` of the aggregate's stream carries version `j + 1`,
/// with no gap and no reuse.
pub proof fn lemma_versions_dense(evs: Seq<EventView>, ty: Seq<char>, id: u128, j: int)
    requires
        events_wf(evs),
        0 <= j < stream_of(evs, ty, id).len(),
    ensures
        stream_of(evs, ty, id)[j].version == j + 1,
    decreases j,
{
    broadcast use Seq::lemma_filter_pred;

    let p = |e: EventView| in_stream(e, ty, id);
    let s = stream_of(evs, ty, id);
    lemma_stream_sorted(evs, ty, id);
    // lower bound: versions start at 1 and strictly increase along the stream
    lemma_filter_sub(evs, p, j);
    let i = choose|i: int| 0 <= i < evs.len() && evs[i] == s[j];
    if j > 0 {
        lemma_versions_dense(evs, ty, id, j - 1);
        assert(s[j - 1].version < s[j].version);
    }
    assert(s[j].version >= j + 1);
    // upper bound: a version above j + 1 would need j + 1 distinct
    // predecessors, and the dense-predecessor invariant places one of
    // version s[j].version - 1 at a position before j
    if s[j].version > 1 {
        let v = s[j].version as int;
        let l = choose|l: int|
            0 <= l < evs.len() && same_agg(#[trigger] evs[l], evs[i]) && evs[l].version + 1
                == evs[i].version;
        assert(in_stream(evs[l], ty, id));
        Seq::lemma_filter_contains(evs, p, l);
        assert(s.contains(evs[l]));
        let m = choose|m: int| 0 <= m < s.len() && s[m] == evs[l];
        assert(s[m].version + 1 == s[j].version);
        assert(m < j);
        lemma_versions_dense(evs, ty, id, m);
        assert(s[j].version == m + 2);
    } else {
        assert(s[j].version == 1);
    }
}

} // verus!

verus! {

/// A filter that rejects everything up to position `m` and accepts everything
/// after keeps exactly the suffix.
proof fn lemma_filter_sorted_suffix<T>(s: Seq<T>, q: spec_fn(T) -> bool, m: int)
    requires
        -1 <= m < s.len(),
        forall|i: int| 0 <= i <= m ==> !q(s[i]),
        forall|i: int| m < i < s.len() ==> q(s[i]),
    ensures
        s.filter(q) == s.skip(m + 1),
    decreases s.len(),
{
    reveal(Seq::filter);
    if s.len() == 0 {
        assert(s.filter(q) =~= s.skip(m + 1));
    } else if m == s.len() - 1 {
        s.lemma_all_neg_filter_empty(q);
        assert(s.filter(q) =~= s.skip(m + 1));
    } else {
        let s0 = s.drop_last();
        assert(forall|i: int| 0 <= i <= m ==> !q(s0[i]));
        assert(forall|i: int| m < i < s0.len() ==> q(s0[i]));
        lemma_filter_sorted_suffix(s0, q, m);
        assert(q(s.last()));
        assert(s.filter(q) == s0.filter(q).push(s.last()));
        assert(s0.skip(m + 1).push(s.last()) =~= s.skip(m + 1));
    }
}

/// The sort key strictly increases along an aggregate's stream.
pub proof fn lemma_stream_key_sorted(evs: Seq<EventView>, ty: Seq<char>, id: u128)
    requires
        events_wf(evs),
    ensures
        forall|k: int, l: int|
            #![trigger stream_of(evs, ty, id)[k], stream_of(evs, ty, id)[l]]
            0 <= k < l < stream_of(evs, ty, id).len() ==> key_lt(
                key_of(stream_of(evs, ty, id)[k]),
                key_of(stream_of(evs, ty, id)[l]),
            ),
{
    lemma_filter_pairwise(
        evs,
        |e: EventView| in_stream(e, ty, id),
        |a: EventView, b: EventView| key_lt(key_of(a), key_of(b)),
    );
}

/// Keyset pages chain without gap or overlap: the rows after the cursor of
/// the `m`-th row of a result set are exactly the rows after position `m`.
/// Successive forward pages that pass each page's last cursor back in
/// therefore visit every row exactly once, in order.
pub proof fn lemma_pages_chain(
    evs: Seq<EventView>,
    ty: Seq<char>,
    id: u128,
    cur: Option<EventCursor>,
    m: int,
)
    requires
        events_wf(evs),
        0 <= m < forward_rows(evs, ty, id, cur).len(),
    ensures
        forward_rows(evs, ty, id, Some(key_of(forward_rows(evs, ty, id, cur)[m])))
            == forward_rows(evs, ty, id, cur).skip(m + 1),
{
    broadcast use Seq::lemma_filter_pred;

    let r0 = forward_rows(evs, ty, id, cur);
    let k = key_of(r0[m]);
    let q = |e: EventView| key_lt(k, key_of(e));
    let p1 = |e: EventView| in_stream(e, ty, id) && key_lt(k, key_of(e));

    // r0 is strictly key-sorted
    match cur {
        Some(c0) => {
            lemma_filter_pairwise(
                evs,
                |e: EventView| in_stream(e, ty, id) && key_lt(c0, key_of(e)),
                |a: EventView, b: EventView| key_lt(key_of(a), key_of(b)),
            );
            // the target pred equals the source pred conjoined with `q`
            let p0 = |e: EventView| in_stream(e, ty, id) && key_lt(c0, key_of(e));
            assert forall|e: EventView| #[trigger] p1(e) == (p0(e) && q(e)) by {
                assert(key_lt(c0, k));
            }
            lemma_filter_filter(evs, p0, q, p1);
        },
        None => {
            lemma_stream_key_sorted(evs, ty, id);
            let p0 = |e: EventView| in_stream(e, ty, id);
            assert forall|e: EventView| #[trigger] p1(e) == (p0(e) && q(e)) by {}
            lemma_filter_filter(evs, p0, q, p1);
        },
    }
    assert(evs.filter(p1) == r0.filter(q));

    // before and at `m` the key is not past `k`; after `m` it is
    assert forall|i: int| 0 <= i <= m implies !q(r0[i]) by {
        if i < m {
            assert(key_lt(key_of(r0[i]), k));
        }
    }
    assert forall|i: int| m < i < r0.len() implies q(r0[i]) by {
        assert(key_lt(k, key_of(r0[i])));
    }
    lemma_filter_sorted_suffix(r0, q, m);
}

} // verus!

verus! {

/// Whether an event belongs to a routing-key filter.
pub open spec fn routed(e: EventView, rk: Option<Seq<char>>) -> bool {
    match rk {
        Some(rk) => e.routing_key == rk,
        None => true,
    }
}

/// Whether an event is routed to `rk` and lies strictly after `after`.
pub open spec fn routed_after(e: EventView, rk: Option<Seq<char>>, after: Option<
    EventCursor,
>) -> bool {
    routed(e, rk) && match after {
        Some(k) => key_lt(k, key_of(e)),
        None => true,
    }
}

/// The offset row of `(subscription key, routing key)`, if one is persisted.
pub open spec fn off_of(offs: Seq<OffsetView>, key: Seq<char>, rk: Option<Seq<char>>) -> Option<
    OffsetView,
> {
    if exists|l: int|
        0 <= l < offs.len() && (#[trigger] offs[l]).key == key && offs[l].routing_key == rk {
        Some(
            offs[choose|l: int|
                0 <= l < offs.len() && (#[trigger] offs[l]).key == key && offs[l].routing_key
                    == rk],
        )
    } else {
        None
    }
}

impl EventStore {
    /// The earliest event routed to `rk` strictly after `after`: what a
    /// subscription is owed next.
    #[verifier::loop_isolation(false)]
    pub fn next_event_after(&self, routing_key: Option<&String>, after: Option<&EventCursor>) -> (r:
        Option<Event>)
        requires
            self.wf(),
        ensures
            ({
                let rk = match routing_key {
                    Some(s) => Some(s@),
                    None => None,
                };
                let af = match after {
                    Some(k) => Some(*k),
                    None => None,
                };
                match r {
                    Some(e) => self.evs().contains(e@) && routed_after(e@, rk, af) && forall|l: int|
                        0 <= l < self.evs().len() && routed_after(
                            #[trigger] self.evs()[l],
                            rk,
                            af,
                        ) ==> key_le(key_of(e@), key_of(self.evs()[l])),
                    None => forall|l: int|
                        0 <= l < self.evs().len() ==> !routed_after(
                            #[trigger] self.evs()[l],
                            rk,
                            af,
                        ),
                }
            }),
    {
        let ghost rk: Option<Seq<char>> = match routing_key {
            Some(s) => Some(s@),
            None => None,
        };
        let ghost af: Option<EventCursor> = match after {
            Some(k) => Some(*k),
            None => None,
        };
        let mut best: Option<usize> = None;
        let mut i: usize = 0;
        while i < self.events.len()
            invariant
                i <= self.events@.len(),
                match best {
                    Some(b) => b < i && routed_after(self.evs()[b as int], rk, af) && forall|
                        l: int,
                    |
                        0 <= l < i && routed_after(#[trigger] self.evs()[l], rk, af) ==> key_le(
                            key_of(self.evs()[b as int]),
                            key_of(self.evs()[l]),
                        ),
                    None => forall|l: int|
                        0 <= l < i ==> !routed_after(#[trigger] self.evs()[l], rk, af),
                },
            decreases self.events@.len() - i,
        {
            proof {
                assert(self.evs()[i as int] == self.events@[i as int]@);
            }
            let e = &self.events[i];
            let mut keep: bool = match routing_key {
                Some(s) => e.routing_key == *s,
                None => true,
            };
            match after {
                Some(k) => {
                    if !key_less(k, &e.key()) {
                        keep = false;
                    }
                },
                None => {},
            }
            if keep {
                match best {
                    Some(b) => {
                        if key_less(&e.key(), &self.events[b].key()) {
                            best = Some(i);
                        }
                    },
                    None => {
                        best = Some(i);
                    },
                }
            }
            i += 1;
        }
        match best {
            Some(b) => Some(self.events[b].clone()),
            None => None,
        }
    }

    /// The key of the newest event routed to `rk`: the log's current tail.
    #[verifier::loop_isolation(false)]
    pub fn tail_key(&self, routing_key: Option<&String>) -> (r: Option<EventCursor>)
        requires
            self.wf(),
        ensures
            ({
                let rk = match routing_key {
                    Some(s) => Some(s@),
                    None => None,
                };
                match r {
                    Some(k) => (exists|l: int|
                        0 <= l < self.evs().len() && routed(#[trigger] self.evs()[l], rk) && key_of(
                            self.evs()[l],
                        ) == k) && forall|l: int|
                        0 <= l < self.evs().len() && routed(#[trigger] self.evs()[l], rk)
                            ==> key_le(key_of(self.evs()[l]), k),
                    None => forall|l: int|
                        0 <= l < self.evs().len() ==> !routed(#[trigger] self.evs()[l], rk),
                }
            }),
    {
        let ghost rk: Option<Seq<char>> = match routing_key {
            Some(s) => Some(s@),
            None => None,
        };
        let mut best: Option<EventCursor> = None;
        let mut i: usize = 0;
        while i < self.events.len()
            invariant
                i <= self.events@.len(),
                match best {
                    Some(k) => (exists|l: int|
                        0 <= l < i && routed(#[trigger] self.evs()[l], rk) && key_of(self.evs()[l])
                            == k) && forall|l: int|
                        0 <= l < i && routed(#[trigger] self.evs()[l], rk) ==> key_le(
                            key_of(self.evs()[l]),
                            k,
                        ),
                    None => forall|l: int| 0 <= l < i ==> !routed(#[trigger] self.evs()[l], rk),
                },
            decreases self.events@.len() - i,
        {
            proof {
                assert(self.evs()[i as int] == self.events@[i as int]@);
            }
            let e = &self.events[i];
            let keep: bool = match routing_key {
                Some(s) => e.routing_key == *s,
                None => true,
            };
            if keep {
                let ek = e.key();
                match &best {
                    Some(k) => {
                        if key_less(k, &ek) {
                            best = Some(ek);
                        }
                    },
                    None => {
                        best = Some(ek);
                    },
                }
            }
            i += 1;
        }
        best
    }

    /// The stored offset of `(subscription key, routing key)`.
    #[verifier::loop_isolation(false)]
    pub fn get_offset(&self, key: &String, routing_key: Option<&String>) -> (r: Option<
        Option<EventCursor>,
    >)
        requires
            self.wf(),
        ensures
            ({
                let rk = match routing_key {
                    Some(s) => Some(s@),
                    None => None,
                };
                match r {
                    Some(c) => off_of(self.offs(), key@, rk) matches Some(o) && o.cursor == c,
                    None => off_of(self.offs(), key@, rk) is None,
                }
            }),
    {
        let ghost rk: Option<Seq<char>> = match routing_key {
            Some(s) => Some(s@),
            None => None,
        };
        let mut i: usize = 0;
        while i < self.offsets.len()
            invariant
                i <= self.offsets@.len(),
                forall|l: int|
                    0 <= l < i ==> !((#[trigger] self.offs()[l]).key == key@ && self.offs()[
                        l].routing_key == rk),
            decreases self.offsets@.len() - i,
        {
            proof {
                assert(self.offs()[i as int] == self.offsets@[i as int]@);
            }
            let o = &self.offsets[i];
            let same_rk: bool = match (&o.routing_key, routing_key) {
                (Some(a), Some(b)) => *a == *b,
                (None, None) => true,
                _ => false,
            };
            if o.key == *key && same_rk {
                proof {
                    let ghost li = i as int;
                    let w = choose|l: int|
                        0 <= l < self.offs().len() && (#[trigger] self.offs()[l]).key == key@
                            && self.offs()[l].routing_key == rk;
                    assert(0 <= li < self.offs().len() && (#[trigger] self.offs()[li]).key == key@
                        && self.offs()[li].routing_key == rk);
                    assert(w == li);
                }
                return Some(o.cursor);
            }
            i += 1;
        }
        None
    }

    /// Upsert the offset of `(subscription key, routing key)`.
    #[verifier::loop_isolation(false)]
    pub fn put_offset(
        &mut self,
        key: &String,
        routing_key: Option<&String>,
        cursor: Option<EventCursor>,
    )
        requires
            old(self).wf(),
        ensures
            final(self).wf(),
            final(self).evs() == old(self).evs(),
            final(self).snaps() == old(self).snaps(),
            ({
                let rk = match routing_key {
                    Some(s) => Some(s@),
                    None => None,
                };
                &&& off_of(final(self).offs(), key@, rk) == Some(
                    OffsetView { key: key@, routing_key: rk, cursor },
                )
                &&& forall|k2: Seq<char>, rk2: Option<Seq<char>>|
                    !(k2 == key@ && rk2 == rk) ==> #[trigger] off_of(final(self).offs(), k2, rk2)
                        == off_of(old(self).offs(), k2, rk2)
            }),
    {
        let row = SubscriptionOffset {
            key: key.clone(),
            routing_key: match routing_key {
                Some(s) => Some(s.clone()),
                None => None,
            },
            cursor,
        };
        let ghost nv = row@;
        let ghost ooffs = self.offs();
        let mut i: usize = 0;
        while i < self.offsets.len()
            invariant
                i <= self.offsets@.len(),
                ooffs == self.offs(),
                *self == *old(self),
                forall|l: int|
                    0 <= l < i ==> !((#[trigger] self.offs()[l]).key == nv.key && self.offs()[
                        l].routing_key == nv.routing_key),
            decreases self.offsets@.len() - i,
        {
            proof {
                assert(self.offs()[i as int] == self.offsets@[i as int]@);
            }
            let same_rk: bool = match &self.offsets[i].routing_key {
                Some(a) => match &row.routing_key {
                    Some(b) => *a == *b,
                    None => false,
                },
                None => row.routing_key.is_none(),
            };
            proof {
                assert(same_rk == (self.offs()[i as int].routing_key == nv.routing_key));
            }
            if self.offsets[i].key == row.key && same_rk {
                proof {
                    assert(self.offs()[i as int].key == nv.key);
                    assert(self.offs()[i as int].routing_key == nv.routing_key);
                }
                self.offsets.remove(i);
                self.offsets.insert(i, row);
                proof {
                    assert(self.offs() =~= ooffs.update(i as int, nv));
                    lemma_off_upsert(ooffs, i as int, nv);
                    assert(self.evs() == old(self).evs());
                    assert(self.snaps() == old(self).snaps());
                    assert(self.offs() == ooffs.update(i as int, nv));
                }
                return ;
            }
            i += 1;
        }
        self.offsets.push(row);
        proof {
            assert(self.offs() =~= ooffs.push(nv));
            assert(self.evs() == old(self).evs());
            assert(self.snaps() == old(self).snaps());
            assert forall|k: int, l: int|
                #![trigger self.offs()[k], self.offs()[l]]
                0 <= k < l < self.offs().len() implies !(self.offs()[k].key == self.offs()[l].key
                && self.offs()[k].routing_key == self.offs()[l].routing_key) by {
                if l < ooffs.len() {
                    assert(self.offs()[k] == ooffs[k] && self.offs()[l] == ooffs[l]);
                } else {
                    assert(self.offs()[l] == nv);
                    assert(self.offs()[k] == ooffs[k]);
                }
            }
            assert(off_of(self.offs(), nv.key, nv.routing_key) == Some(nv)) by {
                let li = ooffs.len() as int;
                assert(0 <= li < self.offs().len() && (#[trigger] self.offs()[li]).key == nv.key
                    && self.offs()[li].routing_key == nv.routing_key);
                let w = choose|l: int|
                    0 <= l < self.offs().len() && (#[trigger] self.offs()[l]).key == nv.key
                        && self.offs()[l].routing_key == nv.routing_key;
                if w < li {
                    assert(ooffs[w] == self.offs()[w]);
                }
            }
            assert forall|k2: Seq<char>, rk2: Option<Seq<char>>|
                !(k2 == nv.key && rk2 == nv.routing_key) implies #[trigger] off_of(
                self.offs(),
                k2,
                rk2,
            ) == off_of(ooffs, k2, rk2) by {
                lemma_off_other(ooffs, self.offs(), k2, rk2);
            }
        }
    }
}

/// Updating the one row of an offset key keeps that key's lookup pointed at
/// the new row and every other key's lookup unchanged.
proof fn lemma_off_upsert(offs: Seq<OffsetView>, i: int, nv: OffsetView)
    requires
        0 <= i < offs.len(),
        offs[i].key == nv.key,
        offs[i].routing_key == nv.routing_key,
        forall|k: int, l: int|
            #![trigger offs[k], offs[l]]
            0 <= k < l < offs.len() ==> !(offs[k].key == offs[l].key && offs[k].routing_key
                == offs[l].routing_key),
    ensures
        off_of(offs.update(i, nv), nv.key, nv.routing_key) == Some(nv),
        forall|k2: Seq<char>, rk2: Option<Seq<char>>|
            !(k2 == nv.key && rk2 == nv.routing_key) ==> #[trigger] off_of(
                offs.update(i, nv),
                k2,
                rk2,
            ) == off_of(offs, k2, rk2),
        forall|k: int, l: int|
            #![trigger offs.update(i, nv)[k], offs.update(i, nv)[l]]
            0 <= k < l < offs.update(i, nv).len() ==> !(offs.update(i, nv)[k].key == offs.update(
                i,
                nv,
            )[l].key && offs.update(i, nv)[k].routing_key == offs.update(i, nv)[l].routing_key),
{
    let up = offs.update(i, nv);
    assert(up[i] == nv);
    assert forall|k: int, l: int|
        #![trigger up[k], up[l]]
        0 <= k < l < up.len() implies !(up[k].key == up[l].key && up[k].routing_key
        == up[l].routing_key) by {
        if k != i && l != i {
            assert(up[k] == offs[k] && up[l] == offs[l]);
        } else if k == i {
            assert(up[l] == offs[l]);
            assert(offs[i].key == nv.key);
        } else {
            assert(up[k] == offs[k]);
            assert(offs[i].key == nv.key);
        }
    }
    assert(off_of(up, nv.key, nv.routing_key) == Some(nv)) by {
        let w = choose|l: int|
            0 <= l < up.len() && (#[trigger] up[l]).key == nv.key && up[l].routing_key
                == nv.routing_key;
        if w != i {
            assert(up[w] == offs[w]);
            assert(offs[i].key == nv.key);
        }
    }
    assert forall|k2: Seq<char>, rk2: Option<Seq<char>>|
        !(k2 == nv.key && rk2 == nv.routing_key) implies #[trigger] off_of(up, k2, rk2) == off_of(
        offs,
        k2,
        rk2,
    ) by {
        lemma_off_other(offs, up, k2, rk2);
    }
}

/// Two offset tables that agree on every row of a key agree on that key's
/// lookup.
proof fn lemma_off_other(
    a: Seq<OffsetView>,
    b: Seq<OffsetView>,
    k2: Seq<char>,
    rk2: Option<Seq<char>>,
)
    requires
        forall|k: int, l: int|
            #![trigger a[k], a[l]]
            0 <= k < l < a.len() ==> !(a[k].key == a[l].key && a[k].routing_key
                == a[l].routing_key),
        forall|k: int, l: int|
            #![trigger b[k], b[l]]
            0 <= k < l < b.len() ==> !(b[k].key == b[l].key && b[k].routing_key
                == b[l].routing_key),
        forall|l: int|
            0 <= l < a.len() && ((#[trigger] a[l]).key == k2 && a[l].routing_key == rk2) ==> l
                < b.len() && b[l] == a[l],
        forall|l: int|
            0 <= l < b.len() && ((#[trigger] b[l]).key == k2 && b[l].routing_key == rk2) ==> l
                < a.len() && a[l] == b[l],
    ensures
        off_of(b, k2, rk2) == off_of(a, k2, rk2),
{
    if exists|l: int| 0 <= l < a.len() && (#[trigger] a[l]).key == k2 && a[l].routing_key == rk2 {
        let la = choose|l: int|
            0 <= l < a.len() && (#[trigger] a[l]).key == k2 && a[l].routing_key == rk2;
        assert(b[la] == a[la]);
        let lb = choose|l: int|
            0 <= l < b.len() && (#[trigger] b[l]).key == k2 && b[l].routing_key == rk2;
        assert(a[lb] == b[lb]);
        assert(la == lb);
        assert(off_of(a, k2, rk2) == Some(a[la]));
        assert(off_of(b, k2, rk2) == Some(b[lb]));
    } else {
        if exists|l: int|
            0 <= l < b.len() && (#[trigger] b[l]).key == k2 && b[l].routing_key == rk2 {
            let lb = choose|l: int|
                0 <= l < b.len() && (#[trigger] b[l]).key == k2 && b[l].routing_key == rk2;
            assert(a[lb] == b[lb]);
        }
    }
}

} // verus!

verus! {

/// Sort keys are unique across the log: a key carries the event id, and ids
/// never repeat.
pub proof fn lemma_key_unique(evs: Seq<EventView>, i: int, j: int)
    requires
        events_wf(evs),
        0 <= i < evs.len(),
        0 <= j < evs.len(),
        key_of(evs[i]) == key_of(evs[j]),
    ensures
        i == j,
{
    if i < j {
        assert(evs[i].id != evs[j].id);
    } else if j < i {
        assert(evs[j].id != evs[i].id);
    }
}

} // verus!

verus! {

/// Whether the row at position `l` of the result set stands outside the page:
/// it differs from every row the page carries.
pub open spec fn row_outside_page(
    evs: Seq<EventView>,
    ty: Seq<char>,
    id: u128,
    cur: Option<EventCursor>,
    limit: int,
    l: int,
) -> bool {
    forall|x: int|
        0 <= x < forward_page(evs, ty, id, cur, limit).len() ==> forward_rows(evs, ty, id, cur)[l]
            != #[trigger] forward_page(evs, ty, id, cur, limit)[x]
}

/// `has_next_page` reports exactly that a matching row exists beyond the
/// page: when it is set, some row after the cursor differs from every edge;
/// when it is clear, the page carries every row after the cursor.
pub proof fn lemma_has_more_row_outside(
    evs: Seq<EventView>,
    ty: Seq<char>,
    id: u128,
    cur: Option<EventCursor>,
    limit: int,
)
    requires
        events_wf(evs),
        0 <= limit,
    ensures
        forward_has_more(evs, ty, id, cur, limit) ==> exists|l: int|
            0 <= l < forward_rows(evs, ty, id, cur).len() && #[trigger] row_outside_page(
                evs,
                ty,
                id,
                cur,
                limit,
                l,
            ),
        !forward_has_more(evs, ty, id, cur, limit) ==> forward_page(evs, ty, id, cur, limit)
            == forward_rows(evs, ty, id, cur),
{
    let rows = forward_rows(evs, ty, id, cur);
    let page = forward_page(evs, ty, id, cur, limit);
    if rows.len() > limit {
        // the rows are strictly key-sorted, so the row at `limit` differs
        // from every page row
        match cur {
            Some(k) => {
                lemma_filter_pairwise(
                    evs,
                    |e: EventView| in_stream(e, ty, id) && key_lt(k, key_of(e)),
                    |a: EventView, b: EventView| key_lt(key_of(a), key_of(b)),
                );
            },
            None => {
                lemma_stream_key_sorted(evs, ty, id);
            },
        }
        assert forall|x: int| 0 <= x < page.len() implies rows[limit] != #[trigger] page[x] by {
            assert(page[x] == rows[x]);
            assert(key_lt(key_of(rows[x]), key_of(rows[limit])));
        }
        assert(row_outside_page(evs, ty, id, cur, limit, limit));
    } else {
        assert(page =~= rows);
    }
}

} // verus!

verus! {

/// The result set cut into consecutive pages of at most `limit` rows: the
/// trace a forward walk produces when every page's end cursor is passed back
/// in.
pub open spec fn chained_pages(rows: Seq<EventView>, limit: int) -> Seq<Seq<EventView>>
    decreases rows.len(),
{
    if rows.len() == 0 || limit < 1 {
        Seq::empty()
    } else {
        let cut = if rows.len() <= limit {
            rows.len() as int
        } else {
            limit
        };
        seq![rows.take(cut)] + chained_pages(rows.skip(cut), limit)
    }
}

/// The pages of a forward walk concatenate to the whole result set: every
/// matching row appears exactly once, in ascending key order.
pub proof fn lemma_pages_cover(rows: Seq<EventView>, limit: int)
    requires
        1 <= limit,
    ensures
        chained_pages(rows, limit).flatten() == rows,
    decreases rows.len(),
{
    if rows.len() == 0 {
        assert(chained_pages(rows, limit).flatten() =~= rows);
    } else {
        let cut = if rows.len() <= limit {
            rows.len() as int
        } else {
            limit
        };
        lemma_pages_cover(rows.skip(cut), limit);
        let pages = chained_pages(rows, limit);
        assert(pages.first() == rows.take(cut));
        assert(pages.drop_first() =~= chained_pages(rows.skip(cut), limit));
        assert(pages.flatten() == rows.take(cut) + rows.skip(cut));
        assert(rows.take(cut) + rows.skip(cut) =~= rows);
    }
}

/// One step of a forward walk: the reader's page is the head of the trace,
/// and when the page is full with rows remaining, the walk restarted from the
/// page's end cursor produces exactly the remaining pages. Together with
/// [`lemma_pages_cover`] this is the pagination round trip: successive
/// forward pages chained through each `end_cursor` visit every row exactly
/// once, in order.
pub proof fn lemma_forward_walk_step(
    evs: Seq<EventView>,
    ty: Seq<char>,
    id: u128,
    cur: Option<EventCursor>,
    limit: int,
)
    requires
        events_wf(evs),
        1 <= limit,
    ensures
        chained_pages(forward_rows(evs, ty, id, cur), limit).len() > 0 ==> chained_pages(
            forward_rows(evs, ty, id, cur),
            limit,
        ).first() == forward_page(evs, ty, id, cur, limit),
        forward_has_more(evs, ty, id, cur, limit) ==> chained_pages(
            forward_rows(evs, ty, id, cur),
            limit,
        ).drop_first() == chained_pages(
            forward_rows(
                evs,
                ty,
                id,
                Some(key_of(forward_page(evs, ty, id, cur, limit).last())),
            ),
            limit,
        ),
{
    let rows = forward_rows(evs, ty, id, cur);
    let page = forward_page(evs, ty, id, cur, limit);
    if rows.len() > 0 {
        let cut = if rows.len() <= limit {
            rows.len() as int
        } else {
            limit
        };
        assert(chained_pages(rows, limit).first() == rows.take(cut));
        assert(rows.take(cut) =~= page);
    }
    if rows.len() > limit {
        assert(page.last() == rows[limit - 1]);
        lemma_pages_chain(evs, ty, id, cur, limit - 1);
        assert(forward_rows(evs, ty, id, Some(key_of(rows[limit - 1]))) == rows.skip(limit));
        assert(chained_pages(rows, limit).drop_first() =~= chained_pages(rows.skip(limit), limit));
    }
}

} // verus!
