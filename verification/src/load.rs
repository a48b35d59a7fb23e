//! The aggregate loader: seed from the newest matching snapshot, replay the
//! events after its cursor page by page, snapshot the progress, and return
//! the reconstructed state with the aggregate's newest event.

use vstd::prelude::*;

use crate::agg::{spec_fold, Aggregator, LoadResult};
use crate::cursor::{Args, Value};
use crate::store::{
    forward_rows, has_event_at, lemma_pages_chain, snap_of, EventStore, SnapshotView,
};
use crate::{key_of, EventCursor, EventView, ReadError};

verus! {

/// How many events one loader page fetches.
pub const LOAD_PAGE: u16 = 1000;

/// How many pages the loader reads before failing with `TooManyEvents`.
pub const LOAD_MAX_PAGES: usize = 10;

/// The loader's total event budget: `LOAD_PAGE * LOAD_MAX_PAGES`.
pub const LOAD_CAP: usize = 10000;

/// The state a load starts folding from, with the cursor of the last event
/// already folded into it: the newest snapshot when its revision matches the
/// current fold, else the initial state from the top of the stream.
pub open spec fn spec_seed<A: Aggregator>(snaps: Seq<SnapshotView>, id: u128) -> Result<
    (A, Option<EventCursor>),
    ReadError,
> {
    match snap_of(snaps, A::spec_name(), id) {
        Some(s) => {
            if s.revision == A::spec_revision() {
                match A::spec_from_bytes(s.data) {
                    Some(a) => Ok((a, Some(s.cursor))),
                    None => Err(ReadError::DeserializeAggregate),
                }
            } else {
                Ok((A::spec_initial(), None))
            }
        },
        None => Ok((A::spec_initial(), None)),
    }
}

/// The one event of aggregate type `ty` whose sort key is `k`.
pub open spec fn event_with_key(evs: Seq<EventView>, ty: Seq<char>, k: EventCursor) -> EventView {
    evs[choose|l: int|
        0 <= l < evs.len() && (#[trigger] evs[l]).aggregate_type == ty && key_of(evs[l]) == k]
}

/// What a load computes once seeded: fold the events after the cursor, within
/// the loader's budget, and name the aggregate's newest event; an exhausted
/// budget is `TooManyEvents`, an empty remainder anchors at the seed cursor's
/// event, and an aggregate without events or snapshot is `NotFound`.
pub open spec fn spec_load_seeded<A: Aggregator>(
    evs: Seq<EventView>,
    id: u128,
    seed: A,
    cur: Option<EventCursor>,
) -> Result<(A, EventView), ReadError> {
    let rest = forward_rows(evs, A::spec_name(), id, cur);
    let capped = if rest.len() <= LOAD_CAP as int {
        rest.len() as int
    } else {
        LOAD_CAP as int
    };
    match spec_fold(seed, rest.take(capped)) {
        None => Err(ReadError::Backend),
        Some(item) => {
            if rest.len() > LOAD_CAP as int {
                Err(ReadError::TooManyEvents)
            } else if rest.len() > 0 {
                Ok((item, rest.last()))
            } else {
                match cur {
                    Some(k) => {
                        if has_event_at(evs, A::spec_name(), k) {
                            Ok((item, event_with_key(evs, A::spec_name(), k)))
                        } else {
                            Err(ReadError::NotFound)
                        }
                    },
                    None => Err(ReadError::NotFound),
                }
            }
        },
    }
}

/// What a load returns, as a function of the store alone.
pub open spec fn spec_load<A: Aggregator>(
    evs: Seq<EventView>,
    snaps: Seq<SnapshotView>,
    id: u128,
) -> Result<(A, EventView), ReadError> {
    match spec_seed::<A>(snaps, id) {
        Err(e) => Err(e),
        Ok((seed, cur)) => spec_load_seeded(evs, id, seed, cur),
    }
}

/// Loading twice with no intervening writes returns the same state, byte for
/// byte, and the same newest event: a load is a function of the store.
pub proof fn lemma_load_repeatable<A: Aggregator>(
    evs: Seq<EventView>,
    snaps: Seq<SnapshotView>,
    id: u128,
    a1: A,
    a2: A,
    e1: EventView,
    e2: EventView,
)
    requires
        spec_load::<A>(evs, snaps, id) == Ok::<(A, EventView), ReadError>((a1, e1)),
        spec_load::<A>(evs, snaps, id) == Ok::<(A, EventView), ReadError>((a2, e2)),
    ensures
        a1 == a2,
        a1.spec_to_bytes() == a2.spec_to_bytes(),
        e1 == e2,
{
}

/// A snapshot taken mid-replay does not change what a load computes: seeding
/// from the folded prefix and continuing after its cursor folds to the same
/// state and ends at the same newest event.
#[verifier::rlimit(100)]
#[verifier::spinoff_prover]
proof fn lemma_load_snapshot_step<A: Aggregator>(
    evs: Seq<EventView>,
    id: u128,
    seed: A,
    cur: Option<EventCursor>,
    c: int,
    folded: A,
)
    requires
        crate::store::events_wf(evs),
        0 < c < forward_rows(evs, A::spec_name(), id, cur).len(),
        forward_rows(evs, A::spec_name(), id, cur).len() <= LOAD_CAP as int,
        spec_fold(seed, forward_rows(evs, A::spec_name(), id, cur).take(c)) == Some(folded),
    ensures
        spec_load_seeded(
            evs,
            id,
            folded,
            Some(key_of(forward_rows(evs, A::spec_name(), id, cur)[c - 1])),
        ) == spec_load_seeded(evs, id, seed, cur),
{
    let ty = A::spec_name();
    let rest = forward_rows(evs, ty, id, cur);
    lemma_pages_chain(evs, ty, id, cur, c - 1);
    let rest2 = forward_rows(evs, ty, id, Some(key_of(rest[c - 1])));
    assert(rest2 == rest.skip(c));
    assert(rest =~= rest.take(c) + rest.skip(c));
    crate::agg::lemma_fold_append(seed, rest.take(c), rest.skip(c));
    assert(rest.take(rest.len() as int) =~= rest);
    assert(rest2.take(rest2.len() as int) =~= rest2);
    assert(rest2.len() > 0);
    assert(rest2.last() == rest.last());
    assert(spec_fold(seed, rest) == spec_fold(folded, rest2));
    let lhs = spec_load_seeded(evs, id, folded, Some(key_of(rest[c - 1])));
    let rhs = spec_load_seeded(evs, id, seed, cur);
    match spec_fold(folded, rest2) {
        None => {
            assert(lhs == Err::<(A, EventView), ReadError>(ReadError::Backend));
            assert(rhs == Err::<(A, EventView), ReadError>(ReadError::Backend));
        },
        Some(item) => {
            assert(lhs == Ok::<(A, EventView), ReadError>((item, rest2.last())));
            assert(rhs == Ok::<(A, EventView), ReadError>((item, rest.last())));
        },
    }
}

impl EventStore {
    /// Reconstruct an aggregate: seed from the newest matching snapshot, fold
    /// every later event in key order, and return the state together with the
    /// aggregate's newest event.
    ///
    /// The result is exactly [`spec_load`] of the store at entry; the event
    /// log is never changed, and the snapshots the loader writes on full
    /// pages leave the outcome of any later load of this aggregate the same.
    #[verifier::loop_isolation(false)]
    #[verifier::rlimit(100)]
    pub fn load<A: Aggregator>(&mut self, id: u128) -> (r: Result<LoadResult<A>, ReadError>)
        requires
            old(self).wf(),
        ensures
            final(self).wf(),
            final(self).evs() == old(self).evs(),
            final(self).offs() == old(self).offs(),
            forall|ty2: Seq<char>, id2: u128|
                !(ty2 == A::spec_name() && id2 == id) ==> #[trigger] snap_of(
                    final(self).snaps(),
                    ty2,
                    id2,
                ) == snap_of(old(self).snaps(), ty2, id2),
            match r {
                Ok(lr) => spec_load::<A>(old(self).evs(), old(self).snaps(), id) == Ok::<
                    (A, EventView),
                    ReadError,
                >((lr.item, lr.event@)) && spec_load::<A>(final(self).evs(), final(self).snaps(), id)
                    == Ok::<(A, EventView), ReadError>((lr.item, lr.event@)),
                Err(e) => spec_load::<A>(old(self).evs(), old(self).snaps(), id) == Err::<
                    (A, EventView),
                    ReadError,
                >(e),
            },
    {
        let ghost evs = self.evs();
        let ghost osnaps = self.snaps();
        let ghost ty_s = A::spec_name();

        let (mut aggregator, mut cursor): (A, Option<Value>) = match self.get_snapshot::<A>(id) {
            Ok(Some((data, cv))) => match A::from_bytes(data.as_slice()) {
                Some(a) => (a, Some(cv)),
                None => {
                    return Err(ReadError::DeserializeAggregate);
                },
            },
            Ok(None) => (A::initial(), None),
            Err(_) => {
                proof {
                    assert(false);
                }
                (A::initial(), None)
            },
        };
        let ghost seed: A = aggregator;
        let ghost cur0: Option<EventCursor> = match cursor {
            Some(_) => Some(snap_of(osnaps, ty_s, id).unwrap().cursor),
            None => None,
        };
        proof {
            assert(spec_seed::<A>(osnaps, id) == Ok::<(A, Option<EventCursor>), ReadError>(
                (seed, cur0),
            ));
        }
        let ghost target = spec_load_seeded(evs, id, seed, cur0);
        let ghost rest = forward_rows(evs, ty_s, id, cur0);
        let ghost gk: Option<EventCursor> = cur0;
        let ghost consumed: int = 0;

        let mut count: usize = 0;
        while count < LOAD_MAX_PAGES
            invariant
                self.wf(),
                self.evs() == evs,
                self.offs() == old(self).offs(),
                forall|ty2: Seq<char>, id2: u128|
                    !(ty2 == ty_s && id2 == id) ==> #[trigger] snap_of(self.snaps(), ty2, id2)
                        == snap_of(osnaps, ty2, id2),
                count <= LOAD_MAX_PAGES,
                consumed == count * (LOAD_PAGE as int),
                consumed <= rest.len(),
                forward_rows(evs, ty_s, id, gk) == rest.skip(consumed),
                match (cursor, gk) {
                    (None, None) => true,
                    (Some(ref v), Some(k)) => v@ == crate::codec::cursor_encoding(k),
                    _ => false,
                },
                gk is None ==> consumed == 0 && cur0 is None,
                consumed == 0 ==> gk == cur0,
                consumed > 0 ==> consumed < rest.len() && gk == Some(
                    key_of(rest[consumed - 1]),
                ),
                spec_fold(seed, rest.take(consumed)) == Some(aggregator),
                rest.len() <= LOAD_CAP as int ==> spec_load::<A>(evs, self.snaps(), id)
                    == target,
            decreases LOAD_MAX_PAGES - count,
        {
            let args = Args::forward(
                LOAD_PAGE,
                match &cursor {
                    Some(v) => Some(v.clone()),
                    None => None,
                },
            );
            let page = match self.read::<A>(id, &args) {
                Ok(p) => p,
                Err(_) => {
                    proof {
                        assert(false);
                    }
                    return Err(ReadError::Backend);
                },
            };
            proof {
                assert(crate::store::page_ok(
                    evs,
                    ty_s,
                    id,
                    gk,
                    LOAD_PAGE as int,
                    false,
                    page,
                ));
            }
            let ghost prows = crate::store::forward_page(evs, ty_s, id, gk, LOAD_PAGE as int);
            let ghost remaining = rest.skip(consumed);
            proof {
                assert(prows == remaining.take(
                    if remaining.len() <= LOAD_PAGE as int {
                        remaining.len() as int
                    } else {
                        LOAD_PAGE as int
                    },
                ));
            }

            // fold this page
            let mut x: usize = 0;
            while x < page.edges.len()
                invariant
                    x <= page.edges@.len(),
                    page.edges@.len() == prows.len(),
                    forall|y: int|
                        0 <= y < prows.len() ==> (#[trigger] page.edges@[y]).node@ == prows[y],
                    prows.len() <= remaining.len(),
                    remaining == rest.skip(consumed),
                    0 <= consumed <= rest.len(),
                    consumed + prows.len() <= rest.len(),
                    forall|y: int| 0 <= y < prows.len() ==> prows[y] == rest[consumed + y],
                    spec_fold(seed, rest.take(consumed + x)) == Some(aggregator),
                decreases page.edges@.len() - x,
            {
                let ok = aggregator.apply(&page.edges[x].node);
                proof {
                    assert(rest.take(consumed + x + 1) =~= rest.take(consumed + x).push(
                        rest[consumed + x],
                    ));
                    crate::agg::lemma_fold_push(seed, rest.take(consumed + x), rest[consumed + x]);
                }
                if !ok {
                    proof {
                        // the fold fails within the budget, so the load fails
                        let capped = if rest.len() <= LOAD_CAP as int {
                            rest.len() as int
                        } else {
                            LOAD_CAP as int
                        };
                        assert(consumed + x < capped);
                        assert(rest.take(capped) =~= rest.take(consumed + x + 1) + rest.take(
                            capped,
                        ).skip(consumed + x + 1));
                        crate::agg::lemma_fold_append(
                            seed,
                            rest.take(consumed + x + 1),
                            rest.take(capped).skip(consumed + x + 1),
                        );
                        assert(spec_fold(seed, rest.take(capped)) == None::<A>);
                        assert(spec_load_seeded(evs, id, seed, cur0) == Err::<
                            (A, EventView),
                            ReadError,
                        >(ReadError::Backend));
                    }
                    return Err(ReadError::Backend);
                }
                x += 1;
            }
            proof {
                consumed = consumed + prows.len();
            }

            if !page.page_info.has_next_page {
                proof {
                    assert(rest.len() <= consumed + (LOAD_PAGE as int));
                    assert(consumed == rest.len());
                    assert(rest.len() <= LOAD_CAP as int);
                    assert(rest.take(consumed) =~= rest);
                }
                if page.edges.len() > 0 {
                    let ev = page.edges[page.edges.len() - 1].node.clone();
                    proof {
                        assert(ev@ == prows.last());
                        assert(prows.last() == rest.last());
                        assert(spec_load_seeded(evs, id, seed, cur0) == Ok::<
                            (A, EventView),
                            ReadError,
                        >((aggregator, ev@)));
                    }
                    return Ok(LoadResult { item: aggregator, event: ev });
                } else {
                    proof {
                        assert(prows.len() == 0);
                        assert(consumed == 0 && rest.len() == 0);
                        assert(gk == cur0);
                    }
                    match &cursor {
                        Some(cv) => {
                            let anchor = self.get_event::<A>(cv);
                            match anchor {
                                Ok(e) => {
                                    proof {
                                        let k = cur0.unwrap();
                                        assert(evs.contains(e@) && e@.aggregate_type == ty_s
                                            && key_of(e@) == k);
                                        let li = choose|l: int|
                                            0 <= l < evs.len() && evs[l] == e@;
                                        let lw = choose|l: int|
                                            0 <= l < evs.len() && (#[trigger] evs[l]).aggregate_type
                                                == ty_s && key_of(evs[l]) == k;
                                        assert(evs[li].id == evs[lw].id);
                                        assert(li == lw);
                                        assert(e@ == event_with_key(evs, ty_s, k));
                                    }
                                    return Ok(LoadResult { item: aggregator, event: e });
                                },
                                Err(err) => {
                                    proof {
                                        let k = cur0.unwrap();
                                        assert(err == ReadError::NotFound);
                                        assert(!has_event_at(evs, ty_s, k));
                                    }
                                    return Err(ReadError::NotFound);
                                },
                            }
                        },
                        None => {
                            return Err(ReadError::NotFound);
                        },
                    }
                }
            }

            // a full page remains ahead: snapshot the progress and continue
            proof {
                assert(prows.len() == LOAD_PAGE as int);
                assert(consumed < rest.len());
            }
            let last_key = page.edges[page.edges.len() - 1].node.key();
            let next_cursor = match page.page_info.end_cursor {
                Some(v) => v,
                None => {
                    proof {
                        assert(false);
                    }
                    return Err(ReadError::Backend);
                },
            };
            let data = aggregator.to_bytes();
            let _ = self.save_snapshot::<A>(id, data, last_key);
            proof {
                gk = Some(key_of(rest[consumed - 1]));
                lemma_pages_chain(evs, ty_s, id, cur0, consumed - 1);
                if rest.len() <= LOAD_CAP as int {
                    aggregator.lemma_bytes_round_trip();
                    assert(spec_seed::<A>(self.snaps(), id) == Ok::<
                        (A, Option<EventCursor>),
                        ReadError,
                    >((aggregator, Some(key_of(rest[consumed - 1])))));
                    lemma_load_snapshot_step(evs, id, seed, cur0, consumed, aggregator);
                }
            }
            cursor = Some(next_cursor);
            count += 1;
        }

        // the budget is spent and events remain: the aggregate needs compaction
        proof {
            assert(consumed == LOAD_CAP as int);
            assert(rest.len() > LOAD_CAP as int);
            assert(rest.take(LOAD_CAP as int) =~= rest.take(consumed));
            assert(spec_load_seeded(evs, id, seed, cur0) == Err::<(A, EventView), ReadError>(
                ReadError::TooManyEvents,
            ));
        }
        Err(ReadError::TooManyEvents)
    }
}

} // verus!
