//! The save builder: a fluent accumulator of typed events that assigns
//! versions, runs the fold, appends the batch atomically and upserts a
//! snapshot.

use vstd::prelude::*;

use crate::agg::{spec_fold, Aggregator, AggregatorEvent, LoadResult, Payload};
use crate::store::{last_timestamp_of, last_version_of, snap_of, EventStore, SnapshotView};
use crate::{key_of, Event, EventView, WriteError};

verus! {

/// Relies on `ulid::Ulid::generate` for fresh event ids. Nothing is assumed
/// of the value: the store's own checks keep ids unique.
#[verifier::external_body]
fn new_ulid() -> u128 {
    ulid::Ulid::generate().0
}

/// A pending batch of typed events against one aggregate.
pub struct SaveBuilder<A: Aggregator> {
    aggregate_id: u128,
    aggregator: A,
    routing_key: Option<String>,
    original_version: u16,
    data: Vec<(String, Vec<u8>)>,
    metadata: Option<Vec<u8>>,
}

impl<A: Aggregator> SaveBuilder<A> {
    /// The aggregate this batch will be appended to.
    pub closed spec fn spec_id(&self) -> u128 {
        self.aggregate_id
    }

    /// The state the fold starts from.
    pub closed spec fn spec_aggregator(&self) -> A {
        self.aggregator
    }

    /// The requested routing key, if one was set.
    pub closed spec fn spec_routing_key(&self) -> Option<Seq<char>> {
        match self.routing_key {
            Some(ref rk) => Some(rk@),
            None => None,
        }
    }

    /// The version the aggregate is believed to be at.
    pub closed spec fn spec_original_version(&self) -> u16 {
        self.original_version
    }

    /// The accumulated `(event name, payload bytes)` pairs, in insertion order.
    pub closed spec fn spec_data(&self) -> Seq<(Seq<char>, Seq<u8>)> {
        self.data@.map_values(|p: (String, Vec<u8>)| (p.0@, p.1@))
    }

    /// The metadata bytes, once set.
    pub closed spec fn spec_metadata(&self) -> Option<Seq<u8>> {
        match self.metadata {
            Some(ref m) => Some(m@),
            None => None,
        }
    }

    /// A builder over `aggregator` for the aggregate `aggregate_id`, with no
    /// events, no metadata, the default original version 0 and no routing key.
    pub fn new(aggregator: A, aggregate_id: u128) -> (r: SaveBuilder<A>)
        ensures
            r.spec_id() == aggregate_id,
            r.spec_aggregator() == aggregator,
            r.spec_routing_key() is None,
            r.spec_original_version() == 0,
            r.spec_data() =~= Seq::<(Seq<char>, Seq<u8>)>::empty(),
            r.spec_metadata() is None,
    {
        SaveBuilder {
            aggregate_id,
            aggregator,
            routing_key: None,
            original_version: 0,
            data: Vec::new(),
            metadata: None,
        }
    }

    /// Declare the version the aggregate was last seen at; required when
    /// writing to an existing aggregate.
    pub fn original_version(self, v: u16) -> (r: Self)
        ensures
            r.spec_original_version() == v,
            r.spec_id() == self.spec_id(),
            r.spec_aggregator() == self.spec_aggregator(),
            r.spec_routing_key() == self.spec_routing_key(),
            r.spec_data() == self.spec_data(),
            r.spec_metadata() == self.spec_metadata(),
    {
        SaveBuilder { original_version: v, ..self }
    }

    /// Request a routing key. The first write wins: once set, later calls are
    /// no-ops, and an existing aggregate keeps its persisted key regardless.
    pub fn routing_key(self, v: &str) -> (r: Self)
        ensures
            r.spec_routing_key() == match self.spec_routing_key() {
                Some(rk) => Some(rk),
                None => Some(v@),
            },
            r.spec_id() == self.spec_id(),
            r.spec_aggregator() == self.spec_aggregator(),
            r.spec_original_version() == self.spec_original_version(),
            r.spec_data() == self.spec_data(),
            r.spec_metadata() == self.spec_metadata(),
    {
        if self.routing_key.is_none() {
            SaveBuilder { routing_key: Some(v.to_owned()), ..self }
        } else {
            self
        }
    }

    /// Attach the metadata payload, encoded once and shared by every event of
    /// the batch.
    pub fn metadata<M: Payload>(self, v: &M) -> (r: Result<Self, WriteError>)
        ensures
            match r {
                Ok(b) => b.spec_metadata() == Some(v.spec_to_bytes()) && b.spec_id()
                    == self.spec_id() && b.spec_aggregator() == self.spec_aggregator()
                    && b.spec_routing_key() == self.spec_routing_key() && b.spec_original_version()
                    == self.spec_original_version() && b.spec_data() == self.spec_data(),
                Err(_) => false,
            },
    {
        let bytes = v.to_bytes();
        Ok(SaveBuilder { metadata: Some(bytes), ..self })
    }

    /// Append one typed event to the batch, under its stable event-kind name.
    pub fn data<D: AggregatorEvent>(self, v: &D) -> (r: Result<Self, WriteError>)
        ensures
            match r {
                Ok(b) => b.spec_data() =~= self.spec_data().push(
                    (D::spec_name(), v.spec_to_bytes()),
                ) && b.spec_id() == self.spec_id() && b.spec_aggregator()
                    == self.spec_aggregator() && b.spec_routing_key() == self.spec_routing_key()
                    && b.spec_original_version() == self.spec_original_version()
                    && b.spec_metadata() == self.spec_metadata(),
                Err(_) => false,
            },
    {
        let name = D::name().to_owned();
        let bytes = v.to_bytes();
        let mut data = self.data;
        data.push((name, bytes));
        let r = SaveBuilder { data, ..self };
        proof {
            assert(r.spec_data() =~= self.spec_data().push((D::spec_name(), v.spec_to_bytes())));
        }
        Ok(r)
    }
}

/// The routing key a commit actually writes: an existing aggregate's
/// persisted key; else the requested one; else `"default"`.
pub open spec fn effective_routing_key<A: Aggregator>(
    builder: SaveBuilder<A>,
    evs: Seq<EventView>,
) -> Seq<char> {
    let s = crate::store::stream_of(evs, A::spec_name(), builder.spec_id());
    if s.len() > 0 {
        s.last().routing_key
    } else {
        match builder.spec_routing_key() {
            Some(rk) => rk,
            None => "default"@,
        }
    }
}

/// The timestamp a commit stamps its batch with: the clock reading, clamped
/// so the aggregate's stream never goes back in time.
pub open spec fn commit_timestamp<A: Aggregator>(
    builder: SaveBuilder<A>,
    evs: Seq<EventView>,
    now: u64,
) -> u64 {
    let lt = last_timestamp_of(evs, A::spec_name(), builder.spec_id());
    if now >= lt {
        now
    } else {
        lt
    }
}

/// What a successful commit appends: `n` events for the builder's aggregate,
/// versions `original_version + 1 … + n` in data insertion order, each under
/// its event name with its payload, all sharing one metadata payload, one
/// routing key and one timestamp. Only the fresh event ids are left open.
pub open spec fn commit_appended<A: Aggregator>(
    builder: SaveBuilder<A>,
    evs1: Seq<EventView>,
    evs2: Seq<EventView>,
    rk: Seq<char>,
    ts: u64,
) -> bool {
    let n = builder.spec_data().len();
    &&& evs2.len() == evs1.len() + n
    &&& evs2.take(evs1.len() as int) == evs1
    &&& forall|j: int|
        0 <= j < n ==> {
            let e = #[trigger] evs2[evs1.len() + j];
            &&& e.aggregate_type == A::spec_name()
            &&& e.aggregate_id == builder.spec_id()
            &&& e.version == builder.spec_original_version() + 1 + j
            &&& e.name == builder.spec_data()[j].0
            &&& e.data == builder.spec_data()[j].1
            &&& e.metadata == builder.spec_metadata().unwrap()
            &&& e.routing_key == rk
            &&& e.timestamp == ts
        }
}

/// The batch a commit builds, as a function of the builder, the effective
/// routing key and timestamp, and the fresh event ids it draws: the error
/// contracts below quantify over the ids, so an error kind can only be
/// reported when some choice of ids actually produces it.
#[verifier::opaque]
pub open spec fn planned_batch<A: Aggregator>(
    builder: SaveBuilder<A>,
    rk: Seq<char>,
    ts: u64,
    ids: Seq<u128>,
) -> Seq<EventView>
    recommends
        ids.len() == builder.spec_data().len(),
        builder.spec_metadata() is Some,
        builder.spec_original_version() + builder.spec_data().len() <= u16::MAX,
{
    Seq::new(
        builder.spec_data().len(),
        |j: int|
            EventView {
                id: ids[j],
                aggregate_id: builder.spec_id(),
                aggregate_type: A::spec_name(),
                version: (builder.spec_original_version() + 1 + j) as u16,
                name: builder.spec_data()[j].0,
                routing_key: rk,
                data: builder.spec_data()[j].1,
                metadata: builder.spec_metadata().unwrap(),
                timestamp: ts,
            },
    )
}

/// A batch whose fields follow the builder realizes the planned batch over
/// its own event ids.
proof fn lemma_batch_is_planned<A: Aggregator>(
    builder: SaveBuilder<A>,
    rk: Seq<char>,
    ts: u64,
    batch: Seq<EventView>,
)
    requires
        builder.spec_metadata() is Some,
        builder.spec_original_version() + builder.spec_data().len() <= u16::MAX,
        batch.len() == builder.spec_data().len(),
        forall|x: int|
            0 <= x < batch.len() ==> {
                let e = #[trigger] batch[x];
                &&& e.aggregate_type == A::spec_name()
                &&& e.aggregate_id == builder.spec_id()
                &&& e.version == builder.spec_original_version() + 1 + x
                &&& e.name == builder.spec_data()[x].0
                &&& e.data == builder.spec_data()[x].1
                &&& e.metadata == builder.spec_metadata().unwrap()
                &&& e.routing_key == rk
                &&& e.timestamp == ts
            },
    ensures
        batch == planned_batch::<A>(
            builder,
            rk,
            ts,
            Seq::new(batch.len() as nat, |x: int| batch[x].id),
        ),
{
    reveal(planned_batch);
    let ids = Seq::new(batch.len() as nat, |x: int| batch[x].id);
    let planned = planned_batch::<A>(builder, rk, ts, ids);
    assert forall|x: int| 0 <= x < batch.len() implies planned[x] == #[trigger] batch[x] by {
        assert(batch[x].version == builder.spec_original_version() + 1 + x);
    }
    assert(planned =~= batch);
}

impl<A: Aggregator> SaveBuilder<A> {
    /// Build the batch: one event per data entry, contiguous versions, fresh
    /// ids, one routing key, timestamp and metadata payload; and fold every
    /// event into a copy of the aggregator.
    #[verifier::loop_isolation(false)]
    fn build_events(&self, ty: &String, rk: &String, ts: u64, metadata: &Vec<u8>) -> (r: Result<
        (Vec<Event>, A),
        WriteError,
    >)
        requires
            ty@ == A::spec_name(),
            self.spec_metadata() == Some(metadata@),
            self.spec_data().len() > 0,
            self.spec_original_version() + self.spec_data().len() <= u16::MAX,
        ensures
            match r {
                Ok((events, agg)) => {
                    let b = crate::views_of(events@);
                    &&& b.len() == self.spec_data().len()
                    &&& forall|x: int|
                        0 <= x < b.len() ==> {
                            let e = #[trigger] b[x];
                            &&& e.aggregate_type == A::spec_name()
                            &&& e.aggregate_id == self.spec_id()
                            &&& e.version == self.spec_original_version() + 1 + x
                            &&& e.name == self.spec_data()[x].0
                            &&& e.data == self.spec_data()[x].1
                            &&& e.metadata == self.spec_metadata().unwrap()
                            &&& e.routing_key == rk@
                            &&& e.timestamp == ts
                        }
                    &&& spec_fold(self.spec_aggregator(), b) == Some(agg)
                },
                Err(e) => e == WriteError::FoldFailed && exists|ids: Seq<u128>|
                    ids.len() == self.spec_data().len() && spec_fold(
                        self.spec_aggregator(),
                        planned_batch::<A>(*self, rk@, ts, ids),
                    ) is None,
            },
    {
        let mut events: Vec<Event> = Vec::new();
        let mut aggregator = self.aggregator.duplicate();
        let mut j: usize = 0;
        while j < self.data.len()
            invariant
                j <= self.data@.len(),
                events@.len() == j,
                forall|x: int|
                    0 <= x < j ==> {
                        let e = (#[trigger] events@[x])@;
                        &&& e.aggregate_type == A::spec_name()
                        &&& e.aggregate_id == self.spec_id()
                        &&& e.version == self.spec_original_version() + 1 + x
                        &&& e.name == self.spec_data()[x].0
                        &&& e.data == self.spec_data()[x].1
                        &&& e.metadata == self.spec_metadata().unwrap()
                        &&& e.routing_key == rk@
                        &&& e.timestamp == ts
                    },
                spec_fold(self.spec_aggregator(), crate::views_of(events@)) == Some(aggregator),
            decreases self.data@.len() - j,
        {
            proof {
                assert(self.spec_data()[j as int] == (
                    self.data@[j as int].0@,
                    self.data@[j as int].1@,
                ));
            }
            let (name, bytes) = (self.data[j].0.clone(), self.data[j].1.clone());
            let event = Event {
                id: new_ulid(),
                aggregate_id: self.aggregate_id,
                aggregate_type: ty.clone(),
                version: (self.original_version as usize + 1 + j) as u16,
                name,
                routing_key: rk.clone(),
                data: bytes,
                metadata: metadata.clone(),
                timestamp: ts,
            };
            let ghost pre_events = events@;
            let ghost pre_agg = aggregator;
            let ok = aggregator.apply(&event);
            if !ok {
                proof {
                    // the drawn ids (padded past the failure) witness a batch
                    // whose fold fails
                    reveal(planned_batch);
                    let n = self.spec_data().len();
                    let ids = Seq::new(
                        n,
                        |x: int|
                            if x < j {
                                pre_events[x]@.id
                            } else if x == j {
                                event@.id
                            } else {
                                0u128
                            },
                    );
                    let planned = planned_batch::<A>(*self, rk@, ts, ids);
                    assert forall|x: int| 0 <= x < j implies planned[x] == #[trigger] pre_events[x]@ by {
                        assert(pre_events[x]@.version == self.spec_original_version() + 1 + x);
                    }
                    assert(planned.take(j as int) =~= crate::views_of(pre_events));
                    assert(planned[j as int] == event@);
                    assert(planned.take(j + 1) =~= crate::views_of(pre_events).push(event@));
                    crate::agg::lemma_fold_push(
                        self.spec_aggregator(),
                        crate::views_of(pre_events),
                        event@,
                    );
                    assert(A::spec_apply(pre_agg, event@) is None);
                    assert(spec_fold(self.spec_aggregator(), planned.take(j + 1)) is None);
                    assert(planned =~= planned.take(j + 1) + planned.skip(j + 1));
                    crate::agg::lemma_fold_append(
                        self.spec_aggregator(),
                        planned.take(j + 1),
                        planned.skip(j + 1),
                    );
                    assert(spec_fold(self.spec_aggregator(), planned) is None);
                }
                return Err(WriteError::FoldFailed);
            }
            events.push(event);
            proof {
                assert(crate::views_of(events@) =~= crate::views_of(pre_events).push(
                    events@[j as int]@,
                ));
                crate::agg::lemma_fold_push(
                    self.spec_aggregator(),
                    crate::views_of(pre_events),
                    events@[j as int]@,
                );
                assert forall|x: int| 0 <= x < j + 1 implies {
                    let e = (#[trigger] events@[x])@;
                    &&& e.aggregate_type == A::spec_name()
                    &&& e.aggregate_id == self.spec_id()
                    &&& e.version == self.spec_original_version() + 1 + x
                    &&& e.name == self.spec_data()[x].0
                    &&& e.data == self.spec_data()[x].1
                    &&& e.metadata == self.spec_metadata().unwrap()
                    &&& e.routing_key == rk@
                    &&& e.timestamp == ts
                } by {
                    if x < j {
                        assert(events@[x] == pre_events[x]);
                    }
                }
            }
            j += 1;
        }
        Ok((events, aggregator))
    }

    /// Commit the batch: stamp one timestamp, assign contiguous versions,
    /// fold every event into a copy of the aggregator, append atomically and
    /// upsert the snapshot at the last event's cursor.
    ///
    /// On any error the store is untouched: no event of the batch is
    /// observable. `InvalidOriginalVersion` reports exactly a stale
    /// `original_version` (or one whose batch would overflow the version
    /// counter); `Backend` can only arise from a collision of fresh ids.
    #[verifier::loop_isolation(false)]
    #[verifier::rlimit(100)]
    #[verifier::spinoff_prover]
    pub fn commit(&self, store: &mut EventStore, now: u64) -> (r: Result<u128, WriteError>)
        requires
            old(store).wf(),
        ensures
            final(store).wf(),
            match r {
                Ok(rid) => {
                    let rk = effective_routing_key(*self, old(store).evs());
                    let ts = commit_timestamp(*self, old(store).evs(), now);
                    let evs1 = old(store).evs();
                    let evs2 = final(store).evs();
                    let appended = evs2.skip(evs1.len() as int);
                    &&& rid == self.spec_id()
                    &&& self.spec_metadata() is Some
                    &&& self.spec_data().len() > 0
                    &&& self.spec_original_version() as int == last_version_of(
                        evs1,
                        A::spec_name(),
                        self.spec_id(),
                    )
                    &&& commit_appended(*self, evs1, evs2, rk, ts)
                    &&& spec_fold(self.spec_aggregator(), appended) matches Some(folded)
                        && snap_of(final(store).snaps(), A::spec_name(), self.spec_id()) == Some(
                        SnapshotView {
                            aggregate_type: A::spec_name(),
                            aggregate_id: self.spec_id(),
                            cursor: key_of(evs2.last()),
                            revision: A::spec_revision(),
                            data: folded.spec_to_bytes(),
                        },
                    )
                    &&& final(store).offs() == old(store).offs()
                },
                Err(e) => {
                    &&& *final(store) == *old(store)
                    &&& match e {
                        WriteError::MissingMetadata => self.spec_metadata() is None,
                        WriteError::MissingData => self.spec_metadata() is Some
                            && self.spec_data().len() == 0,
                        WriteError::InvalidOriginalVersion => self.spec_metadata() is Some
                            && self.spec_data().len() > 0 && (self.spec_original_version() as int
                            + self.spec_data().len() > u16::MAX || self.spec_original_version() as int
                            != last_version_of(old(store).evs(), A::spec_name(), self.spec_id())),
                        WriteError::FoldFailed => self.spec_metadata() is Some
                            && self.spec_data().len() > 0 && self.spec_original_version()
                            + self.spec_data().len() <= u16::MAX && exists|ids: Seq<u128>|
                            ids.len() == self.spec_data().len() && spec_fold(
                                self.spec_aggregator(),
                                planned_batch::<A>(
                                    *self,
                                    effective_routing_key(*self, old(store).evs()),
                                    commit_timestamp(*self, old(store).evs(), now),
                                    ids,
                                ),
                            ) is None,
                        WriteError::Backend => self.spec_metadata() is Some
                            && self.spec_data().len() > 0 && self.spec_original_version()
                            + self.spec_data().len() <= u16::MAX && exists|ids: Seq<u128>|
                            ids.len() == self.spec_data().len()
                                && crate::store::write_verdict(
                                old(store).evs(),
                                planned_batch::<A>(
                                    *self,
                                    effective_routing_key(*self, old(store).evs()),
                                    commit_timestamp(*self, old(store).evs(), now),
                                    ids,
                                ),
                            ) == Err::<(), WriteError>(WriteError::Backend),
                    }
                },
            },
            self.spec_metadata() is None ==> r == Err::<u128, WriteError>(
                WriteError::MissingMetadata,
            ),
            self.spec_metadata() is Some && self.spec_data().len() == 0 ==> r == Err::<
                u128,
                WriteError,
            >(WriteError::MissingData),
            self.spec_metadata() is Some && self.spec_data().len() > 0
                && self.spec_original_version() + self.spec_data().len() > u16::MAX ==> r == Err::<
                u128,
                WriteError,
            >(WriteError::InvalidOriginalVersion),
            self.spec_metadata() is Some && self.spec_data().len() > 0
                && self.spec_original_version() + self.spec_data().len() <= u16::MAX
                && self.spec_original_version() as int != last_version_of(
                old(store).evs(),
                A::spec_name(),
                self.spec_id(),
            ) ==> (r == Err::<u128, WriteError>(WriteError::InvalidOriginalVersion) || r == Err::<
                u128,
                WriteError,
            >(WriteError::FoldFailed)),
    {
        let metadata = match &self.metadata {
            Some(m) => m.clone(),
            None => {
                return Err(WriteError::MissingMetadata);
            },
        };
        if self.data.len() == 0 {
            return Err(WriteError::MissingData);
        }
        if self.data.len() > u16::MAX as usize || self.original_version as usize > u16::MAX
            as usize - self.data.len() {
            return Err(WriteError::InvalidOriginalVersion);
        }

        let ty = A::name().to_owned();
        // inherit the aggregate's routing key; else first write wins
        let last = store.stream_last(&ty, self.aggregate_id);
        let (lt, existing_rk): (u64, Option<String>) = match last {
            Some((_, t, rk)) => (t, Some(rk)),
            None => (0u64, None),
        };
        let rk: String = match existing_rk {
            Some(rk) => rk,
            None => match &self.routing_key {
                Some(rk) => rk.clone(),
                None => {
                    let d = "default";
                    d.to_owned()
                },
            },
        };
        let ts: u64 = if now >= lt {
            now
        } else {
            lt
        };
        proof {
            assert(rk@ == effective_routing_key(*self, old(store).evs()));
            assert(ts == commit_timestamp(*self, old(store).evs(), now));
        }

        let ghost evs1 = store.evs();
        let (events, aggregator) = match self.build_events(&ty, &rk, ts, &metadata) {
            Ok(pair) => pair,
            Err(e) => {
                return Err(e);
            },
        };

        // append atomically; the store's verdict is the optimistic guard
        let ghost batch = crate::views_of(events@);
        let last_event_key = events[events.len() - 1].key();
        match store.write(events) {
            Ok(()) => {},
            Err(e) => {
                proof {
                    assert(crate::store::batch_tyid_uniform(batch));
                    if e == WriteError::InvalidOriginalVersion {
                        assert(!crate::store::batch_versions_ok(evs1, batch));
                        assert(batch[0].version == self.spec_original_version() + 1);
                    }
                    // the actual ids witness the store's verdict on this batch
                    lemma_batch_is_planned::<A>(*self, rk@, ts, batch);
                    let ids = Seq::new(batch.len(), |x: int| batch[x].id);
                    assert(crate::store::write_verdict(evs1, planned_batch::<A>(*self, rk@, ts, ids))
                        == Err::<(), WriteError>(e));
                }
                return Err(e);
            },
        }

        // snapshot the folded state at the last event's cursor
        let data = aggregator.to_bytes();
        proof {
            assert(store.evs().skip(evs1.len() as int) =~= batch);
            assert(store.evs().last() == batch.last());
        }
        let _ = store.save_snapshot::<A>(self.aggregate_id, data, last_event_key);
        proof {
            let evs2 = store.evs();
            let n = self.spec_data().len();
            assert(evs2 == evs1 + batch);
            assert(evs2.take(evs1.len() as int) =~= evs1);
            assert forall|x: int| 0 <= x < n implies evs2[evs1.len() + x] == batch[x] by {}
            assert(commit_appended(*self, evs1, evs2, rk@, ts));
            assert(self.spec_original_version() as int == last_version_of(
                evs1,
                A::spec_name(),
                self.spec_id(),
            )) by {
                assert(batch[0].version == self.spec_original_version() + 1);
                assert(crate::store::batch_versions_ok(evs1, batch));
            }
            assert(evs2.skip(evs1.len() as int) =~= batch);
            assert(spec_fold(self.spec_aggregator(), evs2.skip(evs1.len() as int)) == Some(
                aggregator,
            ));
            assert(evs2.last() == batch[n - 1]);
            assert(last_event_key == key_of(evs2.last()));
        }
        Ok(self.aggregate_id)
    }
}

/// Start a batch that creates a new aggregate: a fresh id, the initial state,
/// original version 0.
pub fn create<A: Aggregator>() -> (r: SaveBuilder<A>)
    ensures
        r.spec_aggregator() == A::spec_initial(),
        r.spec_routing_key() is None,
        r.spec_original_version() == 0,
        r.spec_data() =~= Seq::<(Seq<char>, Seq<u8>)>::empty(),
        r.spec_metadata() is None,
{
    SaveBuilder::new(A::initial(), new_ulid())
}

/// Start a batch against a loaded aggregate: the fold continues from the
/// loaded state, the original version and routing key are the loaded event's.
pub fn save<A: Aggregator>(aggregator: LoadResult<A>, aggregate_id: u128) -> (r: SaveBuilder<A>)
    ensures
        r.spec_id() == aggregate_id,
        r.spec_aggregator() == aggregator.item,
        r.spec_routing_key() == Some(aggregator.event@.routing_key),
        r.spec_original_version() == aggregator.event@.version,
        r.spec_data() =~= Seq::<(Seq<char>, Seq<u8>)>::empty(),
        r.spec_metadata() is None,
{
    SaveBuilder::new(aggregator.item, aggregate_id).original_version(
        aggregator.event.version,
    ).routing_key(aggregator.event.routing_key.as_str())
}

} // verus!
