//! The SQL face of the engine: the schema a relational backing store needs,
//! and the rendering of a keyset-cursor predicate. Executing statements is
//! the surrounding process's business; the text built here is pure.

use vstd::prelude::*;
use vstd::string::StringExecFns;

verus! {

/// The schema of the reference store: the append-only event table with its
/// optimistic-concurrency guard (the unique index over aggregate type, id and
/// version), and the snapshot table keyed by aggregate.
pub open spec fn spec_schema() -> Seq<char> {
    "
CREATE TABLE IF NOT EXISTS liteventd_event (
    id  TEXT PRIMARY KEY,
    name TEXT NOT NULL,
    aggregate_type TEXT NOT NULL,
    aggregate_id TEXT NOT NULL,
    version INTEGER NOT NULL,
    data BLOB NOT NULL,
    metadata BLOB NULL,
    routing_key TEXT NOT NULL,
    timestamp INTEGER NOT NULL DEFAULT (strftime('%s', 'now'))
);

CREATE INDEX IF NOT EXISTS idx_event_type ON liteventd_event(aggregate_type);
CREATE INDEX IF NOT EXISTS idx_event_type_id ON liteventd_event(aggregate_type, aggregate_id);
CREATE INDEX IF NOT EXISTS idx_event_routing_key_type ON liteventd_event(routing_key, aggregate_type);
CREATE UNIQUE INDEX IF NOT EXISTS idx_event_type_id_version ON liteventd_event(aggregate_type,aggregate_id,version);

CREATE TABLE IF NOT EXISTS liteventd_snapshot (
    id TEXT NOT NULL,
    type TEXT NOT NULL,
    cursor BLOB NOT NULL,
    revision TEXT NOT NULL,
    data BLOB NOT NULL,
    created_at INTEGER NOT NULL DEFAULT (strftime('%s', 'now')),
    updated_at INTEGER NULL,
    PRIMARY KEY (id,type)
);

CREATE TABLE IF NOT EXISTS liteventd_subscription (
    key TEXT NOT NULL,
    routing_key TEXT NOT NULL,
    cursor TEXT NULL,
    updated_at INTEGER NULL,
    PRIMARY KEY (key,routing_key)
);
"@
}

/// The schema statements for the reference store.
pub fn get_schema() -> (r: &'static str)
    ensures
        r@ == spec_schema(),
{
    "
CREATE TABLE IF NOT EXISTS liteventd_event (
    id  TEXT PRIMARY KEY,
    name TEXT NOT NULL,
    aggregate_type TEXT NOT NULL,
    aggregate_id TEXT NOT NULL,
    version INTEGER NOT NULL,
    data BLOB NOT NULL,
    metadata BLOB NULL,
    routing_key TEXT NOT NULL,
    timestamp INTEGER NOT NULL DEFAULT (strftime('%s', 'now'))
);

CREATE INDEX IF NOT EXISTS idx_event_type ON liteventd_event(aggregate_type);
CREATE INDEX IF NOT EXISTS idx_event_type_id ON liteventd_event(aggregate_type, aggregate_id);
CREATE INDEX IF NOT EXISTS idx_event_routing_key_type ON liteventd_event(routing_key, aggregate_type);
CREATE UNIQUE INDEX IF NOT EXISTS idx_event_type_id_version ON liteventd_event(aggregate_type,aggregate_id,version);

CREATE TABLE IF NOT EXISTS liteventd_snapshot (
    id TEXT NOT NULL,
    type TEXT NOT NULL,
    cursor BLOB NOT NULL,
    revision TEXT NOT NULL,
    data BLOB NOT NULL,
    created_at INTEGER NOT NULL DEFAULT (strftime('%s', 'now')),
    updated_at INTEGER NULL,
    PRIMARY KEY (id,type)
);

CREATE TABLE IF NOT EXISTS liteventd_subscription (
    key TEXT NOT NULL,
    routing_key TEXT NOT NULL,
    cursor TEXT NULL,
    updated_at INTEGER NULL,
    PRIMARY KEY (key,routing_key)
);
"
}

/// The positional bind placeholder of the reference store.
pub fn get_database_bind_key() -> (r: &'static str)
    ensures
        r@ == "?"@,
{
    "?"
}

/// The keyset predicate over the sort-key columns `keys[i..]`: a row lies
/// after the cursor iff it is greater on the first column, or equal there and
/// after on the rest — the tail stands in its own parentheses, so the
/// grouping survives SQL's AND-over-OR precedence. A descending reader flips
/// every comparison. Each cursor value except the last binds twice (the
/// strict comparison, then the equality), so `n` columns take `2n - 1`
/// positional parameters.
pub open spec fn spec_cursor_expr(keys: Seq<Seq<char>>, desc: bool) -> Seq<char>
    recommends
        keys.len() > 0,
    decreases keys.len(),
{
    let head = keys[0] + (if desc {
        " < ?"@
    } else {
        " > ?"@
    });
    if keys.len() <= 1 {
        head
    } else {
        head + " OR ("@ + keys[0] + " = ? AND ("@ + spec_cursor_expr(keys.drop_first(), desc)
            + "))"@
    }
}

/// Render the keyset predicate over the sort-key columns `keys[i..]`.
pub fn build_cursor_expr(keys: &Vec<String>, i: usize, desc: bool) -> (r: String)
    requires
        i < keys@.len(),
    ensures
        r@ == spec_cursor_expr(keys@.map_values(|s: String| s@).skip(i as int), desc),
    decreases keys@.len() - i,
{
    let ghost cols = keys@.map_values(|s: String| s@).skip(i as int);
    proof {
        assert(cols[0] == keys@[i as int]@);
    }
    let sign: &'static str = if desc {
        " < ?"
    } else {
        " > ?"
    };
    let head = keys[i].clone().concat(sign);
    if keys.len() - i == 1 {
        proof {
            assert(head@ =~= spec_cursor_expr(cols, desc));
        }
        head
    } else {
        let tail = build_cursor_expr(keys, i + 1, desc);
        proof {
            assert(keys@.map_values(|s: String| s@).skip(i + 1 as int) =~= cols.drop_first());
        }
        let r = head.concat(" OR (").concat(keys[i].as_str()).concat(" = ? AND (").concat(
            tail.as_str(),
        ).concat("))");
        proof {
            assert(r@ =~= spec_cursor_expr(cols, desc));
        }
        r
    }
}

} // verus!
