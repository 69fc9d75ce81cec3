//! What a recovery replays, as the manifest's records say it: which run's, which span of it, which
//! segments of the span, into which tables, at which schemas, and under which sequence.

use crate::text::{lemma_bytes_before_irreflexive, lemma_name_before_total, name_before};
use crate::wal::coverage::{
    ambiguous, attributable, attribution_holds, checkpointed, checkpointed_root, checkpoints,
    colliding, has_checkpoint, holds_table, is_fault, is_kept, last_at, last_checkpoint,
    lemma_last_checkpoint, roots_onto, shadowed, stream_root, CoverageFault,
};
use crate::wal::lineage::{
    ancestor, describes, distinct, endless, ends_at, ends_missing, is_rooted, lemma_position,
    lemma_put, position, table_of, SchemaEntry,
};
use crate::wal::record::{name_fault, WalRecord, WAL_FORMAT_VERSION};
use crate::wal::scan::{
    concludes, fold, fold_step, is_live_entry, lists_live, live_at, schemas_with, survives,
    survivors, Damage, FoldFault, FoldState, ScanOutcome,
};
use crate::wal::sidecar::{IdentRules, Sidecar};
use vstd::prelude::*;

verus! {

/// Whether `record` records a schema of the table `table`.
pub open spec fn is_delta_of(record: WalRecord, table: Seq<char>) -> bool {
    record matches WalRecord::Delta { schema, .. } && schema.table@ == table
}

/// Whether the record at `i` is the last that records a schema of `table`.
pub open spec fn is_latest(records: Seq<WalRecord>, table: Seq<char>, i: int) -> bool {
    &&& 0 <= i < records.len()
    &&& is_delta_of(records[i], table)
    &&& forall|k: int| i < k < records.len() ==> !is_delta_of(#[trigger] records[k], table)
}

/// Whether `entry` is the schema and mode that the last record of its table has.
pub open spec fn is_latest_entry(records: Seq<WalRecord>, entry: SchemaEntry) -> bool {
    exists|i: int| #[trigger]
        is_latest(records, entry.schema.table@, i) && entry.schema == records[i]->schema
            && entry.mode == records[i]->mode
}

/// Whether any record is of a schema of `table`.
pub open spec fn is_recorded(records: Seq<WalRecord>, table: Seq<char>) -> bool {
    exists|i: int| 0 <= i < records.len() && is_delta_of(#[trigger] records[i], table)
}

/// Whether `entries` are the latest schemas and modes of the tables of `records`, each table's
/// once.
spec fn are_latest(records: Seq<WalRecord>, entries: Seq<SchemaEntry>) -> bool {
    &&& distinct(entries)
    &&& forall|p: int|
        0 <= p < entries.len() ==> is_latest_entry(records, #[trigger] entries[p])
    &&& forall|table: Seq<char>| #[trigger]
        is_recorded(records, table) <==> describes(entries, table)
}

/// A record that is no schema of a table leaves the table's latest where it is.
proof fn lemma_latest_stays(records: Seq<WalRecord>, record: WalRecord, table: Seq<char>, i: int)
    requires
        is_latest(records, table, i),
        !is_delta_of(record, table),
    ensures
        is_latest(records.push(record), table, i),
{
    let more = records.push(record);
    assert(more[i] == records[i]);
    assert forall|k: int| i < k < more.len() implies !is_delta_of(#[trigger] more[k], table) by {
        if k < records.len() {
            assert(more[k] == records[k]);
        }
    }
}

proof fn lemma_recorded_stays(records: Seq<WalRecord>, record: WalRecord, table: Seq<char>)
    ensures
        is_recorded(records.push(record), table) <==> is_recorded(records, table) || is_delta_of(
            record,
            table,
        ),
{
    let more = records.push(record);
    if is_recorded(records, table) {
        let i = choose|i: int| 0 <= i < records.len() && is_delta_of(#[trigger] records[i], table);
        assert(is_delta_of(more[i], table));
    }
    if is_delta_of(record, table) {
        assert(is_delta_of(more[records.len() as int], table));
    }
    if is_recorded(more, table) {
        let i = choose|i: int| 0 <= i < more.len() && is_delta_of(#[trigger] more[i], table);
        if i < records.len() {
            assert(is_delta_of(records[i], table));
        }
    }
}

proof fn lemma_schemas_step(records: Seq<WalRecord>, entries: Seq<SchemaEntry>, record: WalRecord)
    requires
        are_latest(records, entries),
    ensures
        are_latest(records.push(record), schemas_with(entries, record)),
{
    let more = records.push(record);
    let after = schemas_with(entries, record);
    assert forall|table: Seq<char>| #[trigger] is_recorded(more, table) <==> describes(
        after,
        table,
    ) by {
        lemma_recorded_stays(records, record, table);
        if let WalRecord::Delta { schema, mode, .. } = record {
            lemma_put(entries, SchemaEntry { schema, mode });
        }
    }
    assert forall|p: int| 0 <= p < after.len() implies is_latest_entry(
        more,
        #[trigger] after[p],
    ) by {
        let table = after[p].schema.table@;
        if is_delta_of(record, table) {
            let entry = SchemaEntry { schema: record->schema, mode: record->mode };
            lemma_put(entries, entry);
            lemma_position(after, p);
            assert(after[p] == entry);
            assert(more[records.len() as int] == record);
            assert(is_latest(more, table, records.len() as int));
        } else {
            assert(after[p] == entries[p]);
            let i = choose|i: int| #[trigger]
                is_latest(records, table, i) && entries[p].schema == records[i]->schema
                    && entries[p].mode == records[i]->mode;
            lemma_latest_stays(records, record, table, i);
            assert(more[i] == records[i]);
        }
    }
    if let WalRecord::Delta { schema, mode, .. } = record {
        lemma_put(entries, SchemaEntry { schema, mode });
    }
}

/// Whether `record` ends what comes before it: a run's header, or a commit.
pub open spec fn is_boundary(record: WalRecord) -> bool {
    record is Run || record is Committed
}

/// Whether the records from `start` on are the span that is not committed: the ones behind the last
/// header or commit.
pub open spec fn is_span(records: Seq<WalRecord>, start: int) -> bool {
    &&& 0 <= start <= records.len()
    &&& start > 0 ==> is_boundary(records[start - 1])
    &&& forall|k: int| start <= k < records.len() ==> !is_boundary(#[trigger] records[k])
}

/// Whether the header at `h` is the last one.
pub open spec fn is_last_header(records: Seq<WalRecord>, h: int) -> bool {
    &&& 0 <= h < records.len()
    &&& records[h] is Run
    &&& forall|k: int| h < k < records.len() ==> !((#[trigger] records[k]) is Run)
}

/// Whether the record at `i` is a commit of the last run.
pub open spec fn is_own_commit(records: Seq<WalRecord>, i: int) -> bool {
    &&& 0 <= i < records.len()
    &&& records[i] is Committed
    &&& forall|k: int| i < k < records.len() ==> !((#[trigger] records[k]) is Run)
}

/// Whether `greatest` is the greatest sequence that the last run committed, zero where it committed
/// none.
pub open spec fn is_greatest_commit(records: Seq<WalRecord>, greatest: u64) -> bool {
    &&& forall|i: int| #[trigger]
        is_own_commit(records, i) ==> records[i]->commit_seq <= greatest
    &&& greatest == 0 || exists|i: int| #[trigger]
        is_own_commit(records, i) && records[i]->commit_seq == greatest
}

/// Whether every header is of `pipeline` and of the version that is read.
pub open spec fn are_own_headers(records: Seq<WalRecord>, pipeline: Seq<char>) -> bool {
    forall|h: int|
        0 <= h < records.len() && (#[trigger] records[h]) is Run ==> records[h]->pipeline@
            == pipeline && records[h]->format_version == WAL_FORMAT_VERSION
}

/// Whether no header stands between `i` and `j`: they are records of one run.
pub open spec fn is_one_run(records: Seq<WalRecord>, i: int, j: int) -> bool {
    forall|k: int| i < k < j ==> !((#[trigger] records[k]) is Run)
}

/// Whether every segment behind a header has a name the header's run gives, and no two of one run
/// have one name.
pub open spec fn are_own_segments(records: Seq<WalRecord>) -> bool {
    &&& forall|h: int, i: int|
        0 <= h < i < records.len() && (#[trigger] records[h]) is Run && (
        #[trigger] records[i]) is Segment && is_one_run(records, h, i) ==> name_fault(
            records[h]->load_id,
            records[i]->file,
        ) is None
    &&& forall|i: int, j: int|
        0 <= i < j < records.len() && (#[trigger] records[i]) is Segment && (
        #[trigger] records[j]) is Segment && is_one_run(records, i, j) ==> records[i]->file@
            != records[j]->file@
}

/// What folding knows, over the records.
spec fn is_known(records: Seq<WalRecord>, pipeline: Seq<char>, state: FoldState) -> bool {
    &&& are_latest(records, state.schemas)
    &&& is_span(records, records.len() - state.span.len())
    &&& state.span == records.skip(records.len() - state.span.len())
    &&& is_greatest_commit(records, state.max_committed)
    &&& are_own_headers(records, pipeline)
    &&& match state.load_id {
        Some(load_id) => exists|h: int| #[trigger]
            is_last_header(records, h) && records[h]->load_id == load_id,
        None => forall|k: int| 0 <= k < records.len() ==> !((#[trigger] records[k]) is Run),
    }
    &&& are_own_segments(records)
    &&& forall|i: int|
        0 <= i < records.len() && (#[trigger] records[i]) is Segment && is_one_run(
            records,
            i,
            records.len() as int,
        ) ==> state.names.contains(records[i]->file@)
}

proof fn lemma_known(records: Seq<WalRecord>, pipeline: Seq<char>)
    requires
        fold(records, pipeline) is Ok,
    ensures
        is_known(records, pipeline, fold(records, pipeline)->Ok_0),
    decreases records.len(),
{
    let state = fold(records, pipeline)->Ok_0;
    if records.len() == 0 {
        assert(records.skip(0) =~= Seq::empty());
        assert(distinct(state.schemas));
        assert forall|table: Seq<char>| #[trigger] is_recorded(records, table) <==> describes(
            state.schemas,
            table,
        ) by {}
    } else {
        let before = records.drop_last();
        let record = records.last();
        let old_state = fold(before, pipeline)->Ok_0;
        lemma_known(before, pipeline);
        assert(before.push(record) =~= records);
        lemma_schemas_step(before, old_state.schemas, record);
        lemma_span_step(before, pipeline, old_state, record);
        lemma_commit_step(before, pipeline, old_state, record);
        lemma_header_step(before, pipeline, old_state, record);
        lemma_segment_step(before, pipeline, old_state, record);
    }
}

proof fn lemma_span_step(
    before: Seq<WalRecord>,
    pipeline: Seq<char>,
    state: FoldState,
    record: WalRecord,
)
    requires
        is_known(before, pipeline, state),
        fold_step(state, pipeline, record) is Ok,
    ensures
        ({
            let records = before.push(record);
            let next = fold_step(state, pipeline, record)->Ok_0;
            &&& is_span(records, records.len() - next.span.len())
            &&& next.span == records.skip(records.len() - next.span.len())
        }),
{
    let records = before.push(record);
    let next = fold_step(state, pipeline, record)->Ok_0;
    let start = records.len() - next.span.len();
    if is_boundary(record) {
        assert(next.span =~= records.skip(records.len() as int));
        assert(records[start - 1] == record);
    } else {
        assert(next.span =~= state.span.push(record));
        assert(start == before.len() - state.span.len());
        assert(next.span =~= records.skip(start));
        assert forall|k: int| start <= k < records.len() implies !is_boundary(
            #[trigger] records[k],
        ) by {
            if k < before.len() {
                assert(records[k] == before[k]);
            }
        }
        if start > 0 {
            assert(records[start - 1] == before[start - 1]);
        }
    }
}

proof fn lemma_commit_step(
    before: Seq<WalRecord>,
    pipeline: Seq<char>,
    state: FoldState,
    record: WalRecord,
)
    requires
        is_known(before, pipeline, state),
        fold_step(state, pipeline, record) is Ok,
    ensures
        is_greatest_commit(
            before.push(record),
            fold_step(state, pipeline, record)->Ok_0.max_committed,
        ),
{
    let records = before.push(record);
    let next = fold_step(state, pipeline, record)->Ok_0;
    let last = before.len() as int;
    assert(records[last] == record);
    assert forall|i: int| #[trigger] is_own_commit(records, i) implies records[i]->commit_seq
        <= next.max_committed by {
        if i < last {
            assert(records[i] == before[i]);
            assert(!(records[last] is Run));
            assert forall|k: int| i < k < before.len() implies !((#[trigger] before[k]) is Run) by {
                assert(before[k] == records[k]);
            }
            assert(is_own_commit(before, i));
        }
    }
    if !(record is Run) {
        if record is Committed {
            assert(is_own_commit(records, last));
        }
        if state.max_committed != 0 {
            let i = choose|i: int| #[trigger]
                is_own_commit(before, i) && before[i]->commit_seq == state.max_committed;
            assert(records[i] == before[i]);
            assert forall|k: int| i < k < records.len() implies !((#[trigger] records[k]) is Run) by {
                if k < last {
                    assert(records[k] == before[k]);
                }
            }
            assert(is_own_commit(records, i));
        }
    }
}

proof fn lemma_header_step(
    before: Seq<WalRecord>,
    pipeline: Seq<char>,
    state: FoldState,
    record: WalRecord,
)
    requires
        is_known(before, pipeline, state),
        fold_step(state, pipeline, record) is Ok,
    ensures
        ({
            let records = before.push(record);
            let next = fold_step(state, pipeline, record)->Ok_0;
            &&& are_own_headers(records, pipeline)
            &&& match next.load_id {
                Some(load_id) => exists|h: int| #[trigger]
                    is_last_header(records, h) && records[h]->load_id == load_id,
                None => forall|k: int|
                    0 <= k < records.len() ==> !((#[trigger] records[k]) is Run),
            }
        }),
{
    let records = before.push(record);
    let next = fold_step(state, pipeline, record)->Ok_0;
    let last = before.len() as int;
    assert(records[last] == record);
    assert forall|h: int| 0 <= h < records.len() && (#[trigger] records[h]) is Run implies
        records[h]->pipeline@ == pipeline && records[h]->format_version == WAL_FORMAT_VERSION by {
        if h < last {
            assert(records[h] == before[h]);
        }
    }
    if record is Run {
        assert(is_last_header(records, last));
    } else {
        match state.load_id {
            Some(load_id) => {
                let h = choose|h: int| #[trigger]
                    is_last_header(before, h) && before[h]->load_id == load_id;
                assert(records[h] == before[h]);
                assert forall|k: int| h < k < records.len() implies !((
                #[trigger] records[k]) is Run) by {
                    if k < last {
                        assert(records[k] == before[k]);
                    }
                }
                assert(is_last_header(records, h));
            },
            None => {
                assert forall|k: int| 0 <= k < records.len() implies !((
                #[trigger] records[k]) is Run) by {
                    if k < last {
                        assert(records[k] == before[k]);
                    }
                }
            },
        }
    }
}

/// One run's records stay one run's when one more is read.
proof fn lemma_one_run_stays(before: Seq<WalRecord>, record: WalRecord, i: int, j: int)
    requires
        0 <= i < j <= before.len(),
    ensures
        is_one_run(before.push(record), i, j) == is_one_run(before, i, j),
{
    let records = before.push(record);
    if is_one_run(records, i, j) {
        assert forall|k: int| i < k < j implies !((#[trigger] before[k]) is Run) by {
            assert(before[k] == records[k]);
        }
    }
    if is_one_run(before, i, j) {
        assert forall|k: int| i < k < j implies !((#[trigger] records[k]) is Run) by {
            assert(before[k] == records[k]);
        }
    }
}

proof fn lemma_segment_step(
    before: Seq<WalRecord>,
    pipeline: Seq<char>,
    state: FoldState,
    record: WalRecord,
)
    requires
        is_known(before, pipeline, state),
        fold_step(state, pipeline, record) is Ok,
    ensures
        ({
            let records = before.push(record);
            let next = fold_step(state, pipeline, record)->Ok_0;
            &&& are_own_segments(records)
            &&& forall|i: int|
                0 <= i < records.len() && (#[trigger] records[i]) is Segment && is_one_run(
                    records,
                    i,
                    records.len() as int,
                ) ==> next.names.contains(records[i]->file@)
        }),
{
    let records = before.push(record);
    let next = fold_step(state, pipeline, record)->Ok_0;
    let last = before.len() as int;
    assert(records[last] == record);
    assert forall|h: int, i: int|
        0 <= h < i < records.len() && (#[trigger] records[h]) is Run && (
        #[trigger] records[i]) is Segment && is_one_run(records, h, i) implies name_fault(
        records[h]->load_id,
        records[i]->file,
    ) is None by {
        assert(records[h] == before[h]);
        lemma_one_run_stays(before, record, h, i);
        if i < last {
            assert(records[i] == before[i]);
        } else {
            assert forall|k: int| h < k < before.len() implies !((#[trigger] before[k]) is Run) by {
                assert(is_one_run(before, h, last));
            }
            assert(is_last_header(before, h));
            assert(!(before[h] is Run) || state.load_id is Some);
            let g = choose|g: int| #[trigger]
                is_last_header(before, g) && before[g]->load_id == state.load_id->0;
            if g < h {
                assert(!(before[h] is Run));
            } else if h < g {
                assert(!(before[g] is Run));
            }
        }
    }
    assert forall|i: int, j: int|
        0 <= i < j < records.len() && (#[trigger] records[i]) is Segment && (
        #[trigger] records[j]) is Segment && is_one_run(records, i, j) implies records[i]->file@
        != records[j]->file@ by {
        assert(records[i] == before[i]);
        lemma_one_run_stays(before, record, i, j);
        if j < last {
            assert(records[j] == before[j]);
        } else {
            assert(state.names.contains(before[i]->file@));
        }
    }
    assert forall|i: int|
        0 <= i < records.len() && (#[trigger] records[i]) is Segment && is_one_run(
            records,
            i,
            records.len() as int,
        ) implies next.names.contains(records[i]->file@) by {
        if i < last {
            assert(records[i] == before[i]);
            assert(!(records[last] is Run));
            assert(is_one_run(records, i, last));
            lemma_one_run_stays(before, record, i, last);
            assert(state.names.contains(before[i]->file@));
        }
    }
}

/// A recovery ensures every table it lists at the latest schema the manifest records of it, and in
/// the latest mode: those of the table's last record, in whichever span or run it stands.
pub proof fn law_recovered_schemas_are_the_latest(
    records: Seq<WalRecord>,
    pipeline: Seq<char>,
    sidecar: Sidecar,
    rules: IdentRules,
    outcome: ScanOutcome,
    q: int,
)
    requires
        concludes(records, pipeline, sidecar, rules, outcome),
        outcome is Recover,
        0 <= q < outcome->Recover_0.schemas@.len(),
    ensures
        ({
            let entry = outcome->Recover_0.schemas@[q];
            exists|i: int|
                {
                    &&& 0 <= i < records.len()
                    &&& #[trigger] records[i] is Delta
                    &&& records[i]->schema == entry.schema
                    &&& records[i]->mode == entry.mode
                    &&& forall|k: int|
                        i < k < records.len() && (#[trigger] records[k]) is Delta
                            ==> records[k]->schema.table@ != entry.schema.table@
                }
        }),
{
    lemma_known(records, pipeline);
    let state = fold(records, pipeline)->Ok_0;
    let entry = outcome->Recover_0.schemas@[q];
    assert(is_live_entry(state.span, state.schemas, entry));
    let p = choose|p: int|
        0 <= p < state.schemas.len() && #[trigger] live_at(state.span, state.schemas, p)
            && state.schemas[p] == entry;
    assert(is_latest_entry(records, state.schemas[p]));
    let i = choose|i: int| #[trigger]
        is_latest(records, entry.schema.table@, i) && entry.schema == records[i]->schema
            && entry.mode == records[i]->mode;
    assert(records[i] is Delta);
    assert forall|k: int| i < k < records.len() && (#[trigger] records[k]) is Delta implies
        records[k]->schema.table@ != entry.schema.table@ by {
        assert(!is_delta_of(records[k], entry.schema.table@));
    }
}

/// A manifest that recovers was written by this pipeline alone, in the version that is read, under
/// the rules it is read under, and its segments have the names its runs' writers give, no two of a
/// run the same. What is recovered is its last run's, and is committed under the sequence behind
/// the greatest its run committed, the first where it committed none.
pub proof fn law_a_recovery_is_of_the_last_run(
    records: Seq<WalRecord>,
    pipeline: Seq<char>,
    sidecar: Sidecar,
    rules: IdentRules,
    outcome: ScanOutcome,
)
    requires
        concludes(records, pipeline, sidecar, rules, outcome),
        outcome is Recover,
    ensures
        are_own_headers(records, pipeline),
        are_own_segments(records),
        sidecar == (Sidecar::Recorded { rules, valid: true }),
        exists|h: int| #[trigger]
            is_last_header(records, h) && records[h]->load_id == outcome->Recover_0.load_id,
        exists|greatest: u64| #[trigger]
            is_greatest_commit(records, greatest) && outcome->Recover_0.next_commit_seq == greatest
                + 1,
{
    lemma_known(records, pipeline);
    let state = fold(records, pipeline)->Ok_0;
    assert(is_greatest_commit(records, state.max_committed));
}

/// A manifest has nothing to replay exactly where it has no header, or no checkpoint stands behind
/// its last header and its last commit, and nothing refuses it before: another pipeline's or
/// version's header, a segment's name, or the rules.
pub proof fn law_nothing_is_discarded_but_spans_without_checkpoints(
    records: Seq<WalRecord>,
    pipeline: Seq<char>,
    sidecar: Sidecar,
    rules: IdentRules,
    outcome: ScanOutcome,
    start: int,
)
    requires
        concludes(records, pipeline, sidecar, rules, outcome),
        fold(records, pipeline) is Ok,
        sidecar == (Sidecar::Recorded { rules, valid: true }),
        is_span(records, start),
    ensures
        outcome is Discard <==> {
            ||| forall|k: int| 0 <= k < records.len() ==> !((#[trigger] records[k]) is Run)
            ||| forall|k: int|
                start <= k < records.len() ==> !((#[trigger] records[k]) is Checkpoint)
        },
{
    lemma_known(records, pipeline);
    let state = fold(records, pipeline)->Ok_0;
    lemma_one_span(records, start, records.len() - state.span.len());
    let span = records.skip(start);
    assert(state.span == span);
    if has_checkpoint(span) {
        let i = choose|i: int| 0 <= i < span.len() && (#[trigger] span[i]) is Checkpoint;
        assert(records[start + i] is Checkpoint);
    } else {
        assert forall|k: int| start <= k < records.len() implies !((
        #[trigger] records[k]) is Checkpoint) by {
            assert(span[k - start] == records[k]);
        }
    }
}

/// The records behind the last boundary begin at one place.
proof fn lemma_one_span(records: Seq<WalRecord>, a: int, b: int)
    requires
        is_span(records, a),
        is_span(records, b),
    ensures
        a == b,
{
    if a < b {
        assert(!is_boundary(records[b - 1]));
    } else if b < a {
        assert(!is_boundary(records[a - 1]));
    }
}

/// The position of the last record of a schema of `table`.
pub open spec fn latest(records: Seq<WalRecord>, table: Seq<char>) -> int {
    choose|i: int| is_latest(records, table, i)
}

/// The table that the latest schema of `table` names its parent, if it has one.
pub open spec fn parent_of(records: Seq<WalRecord>, table: Seq<char>) -> Option<String> {
    records[latest(records, table)]->schema.parent
}

/// The table that `table` leads to after `hops` parents, each that of the latest schema of the one
/// before.
pub open spec fn climbs(records: Seq<WalRecord>, table: Seq<char>, hops: nat) -> Option<Seq<char>>
    decreases hops,
{
    if hops == 0 {
        Some(table)
    } else if is_recorded(records, table) {
        match parent_of(records, table) {
            Some(parent) => climbs(records, parent@, (hops - 1) as nat),
            None => None,
        }
    } else {
        None
    }
}

/// Whether `table` has a recorded schema, and no parent.
pub open spec fn is_root(records: Seq<WalRecord>, table: Seq<char>) -> bool {
    is_recorded(records, table) && parent_of(records, table) is None
}

/// Whether the last checkpoint of `stream` in `span` stands behind `i`, and names the root table
/// `root`.
pub open spec fn is_checkpointed_behind(
    span: Seq<WalRecord>,
    i: int,
    stream: Seq<char>,
    root: Seq<char>,
) -> bool {
    exists|at: int|
        {
            &&& i < at < span.len()
            &&& #[trigger] span[at] is Checkpoint
            &&& span[at]->stream@ == stream
            &&& span[at]->root@ == root
            &&& forall|k: int|
                at < k < span.len() && (#[trigger] span[k]) is Checkpoint ==> span[k]->stream@
                    != stream
        }
}

/// Whether the segment at `i` of `span` is covered: its table leads to a root table, which is that
/// of a stream whose last checkpoint stands behind the segment.
pub open spec fn is_covered(records: Seq<WalRecord>, span: Seq<WalRecord>, i: int) -> bool {
    exists|hops: nat, stream: Seq<char>, root: Seq<char>|
        {
            &&& #[trigger] climbs(records, span[i]->Segment_table@, hops) == Some(root)
            &&& is_root(records, root)
            &&& #[trigger] is_checkpointed_behind(span, i, stream, root)
        }
}

/// Whether a covered segment of `span` holds `table`, or a descendant of it.
pub open spec fn is_written(records: Seq<WalRecord>, span: Seq<WalRecord>, table: Seq<char>) -> bool {
    exists|i: int, hops: nat|
        {
            &&& 0 <= i < span.len()
            &&& span[i] is Segment
            &&& is_covered(records, span, i)
            &&& #[trigger] climbs(records, (#[trigger] span[i])->Segment_table@, hops) == Some(table)
        }
}

/// Whether the record at `i` of `span` is replayed: a segment where it is covered, a schema where
/// its table is written to, and anything else.
pub open spec fn is_replayed(records: Seq<WalRecord>, span: Seq<WalRecord>, i: int) -> bool {
    match span[i] {
        WalRecord::Segment { .. } => is_covered(records, span, i),
        WalRecord::Delta { schema, .. } => is_written(records, span, schema.table@),
        _ => true,
    }
}

/// The records among the first `n` of `span` that are replayed, in their order.
pub open spec fn replayed(records: Seq<WalRecord>, span: Seq<WalRecord>, n: int) -> Seq<WalRecord>
    decreases n,
{
    if n <= 0 {
        Seq::empty()
    } else if is_replayed(records, span, n - 1) {
        replayed(records, span, n - 1).push(span[n - 1])
    } else {
        replayed(records, span, n - 1)
    }
}

proof fn lemma_latest(records: Seq<WalRecord>, table: Seq<char>, i: int)
    requires
        is_latest(records, table, i),
    ensures
        latest(records, table) == i,
{
    let j = latest(records, table);
    assert(is_latest(records, table, j));
    if j < i {
        assert(!is_delta_of(records[i], table));
    } else if i < j {
        assert(!is_delta_of(records[j], table));
    }
}

/// The latest schema of an entry's table is the entry's.
proof fn lemma_entry_parent(records: Seq<WalRecord>, entries: Seq<SchemaEntry>, p: int)
    requires
        are_latest(records, entries),
        0 <= p < entries.len(),
    ensures
        is_recorded(records, table_of(entries[p])),
        parent_of(records, table_of(entries[p])) == entries[p].schema.parent,
{
    let entry = entries[p];
    assert(is_latest_entry(records, entry));
    let i = choose|i: int| #[trigger]
        is_latest(records, entry.schema.table@, i) && entry.schema == records[i]->schema
            && entry.mode == records[i]->mode;
    lemma_latest(records, table_of(entry), i);
    assert(is_delta_of(records[i], table_of(entry)));
}

/// Parents by name and by position are the same.
proof fn lemma_climbs(records: Seq<WalRecord>, entries: Seq<SchemaEntry>, p: int, hops: nat)
    requires
        are_latest(records, entries),
        0 <= p < entries.len(),
    ensures
        match ancestor(entries, p, hops) {
            Some(j) => 0 <= j < entries.len() && climbs(records, table_of(entries[p]), hops)
                == Some(table_of(entries[j])),
            None => climbs(records, table_of(entries[p]), hops) matches Some(table)
                ==> !describes(entries, table),
        },
    decreases hops,
{
    if hops > 0 {
        lemma_entry_parent(records, entries, p);
        if let Some(parent) = entries[p].schema.parent {
            if describes(entries, parent@) {
                let j = position(entries, parent@);
                assert(table_of(entries[j]) == parent@);
                lemma_climbs(records, entries, j, (hops - 1) as nat);
            } else {
                assert(!is_recorded(records, parent@));
                if hops > 1 {
                    assert(climbs(records, parent@, (hops - 1) as nat) is None);
                }
            }
        }
    }
}

/// A segment is kept where it is covered.
proof fn lemma_covered(
    records: Seq<WalRecord>,
    entries: Seq<SchemaEntry>,
    span: Seq<WalRecord>,
    i: int,
)
    requires
        are_latest(records, entries),
        0 <= i < span.len(),
        span[i] is Segment,
        describes(entries, span[i]->Segment_table@),
    ensures
        is_kept(span, entries, i) <==> is_covered(records, span, i),
{
    let table = span[i]->Segment_table@;
    let p = position(entries, table);
    assert(table_of(entries[p]) == table);
    if is_kept(span, entries, i) {
        let (stream, r) = choose|stream: Seq<char>, r: int| #[trigger]
            checkpointed(span, stream) && #[trigger] ends_at(entries, p, r) && 0 <= r
                < entries.len() && table_of(entries[r]) == stream_root(span, stream) && i
                < last_checkpoint(span, stream);
        lemma_last_checkpoint(span, stream);
        let at = last_checkpoint(span, stream);
        let root = stream_root(span, stream);
        let hops = choose|hops: nat| #[trigger]
            ancestor(entries, p, hops) == Some(r) && entries[r].schema.parent is None;
        lemma_climbs(records, entries, p, hops);
        lemma_entry_parent(records, entries, r);
        assert(last_at(span, stream, at));
        assert forall|k: int| at < k < span.len() && (#[trigger] span[k]) is Checkpoint implies
            span[k]->stream@ != stream by {
            assert(!checkpoints(span[k], stream));
        }
        assert(span[at] is Checkpoint);
        assert(is_checkpointed_behind(span, i, stream, root));
        assert(climbs(records, table, hops) == Some(root));
    }
    if is_covered(records, span, i) {
        let (hops, stream, root) = choose|hops: nat, stream: Seq<char>, root: Seq<char>|
            {
                &&& #[trigger] climbs(records, span[i]->Segment_table@, hops) == Some(root)
                &&& is_root(records, root)
                &&& #[trigger] is_checkpointed_behind(span, i, stream, root)
            };
        lemma_climbs(records, entries, p, hops);
        assert(is_recorded(records, root));
        let r = ancestor(entries, p, hops)->0;
        lemma_entry_parent(records, entries, r);
        assert(ends_at(entries, p, r));
        let at = choose|at: int|
            {
                &&& i < at < span.len()
                &&& #[trigger] span[at] is Checkpoint
                &&& span[at]->stream@ == stream
                &&& span[at]->root@ == root
                &&& forall|k: int|
                    at < k < span.len() && (#[trigger] span[k]) is Checkpoint ==> span[k]->stream@
                        != stream
            };
        assert(checkpoints(span[at], stream));
        assert(checkpointed(span, stream));
        assert(last_at(span, stream, at));
        lemma_last_checkpoint(span, stream);
        assert(checkpointed(span, stream) && ends_at(entries, p, r));
    }
}

/// A table is live where it is written to.
proof fn lemma_written(
    records: Seq<WalRecord>,
    entries: Seq<SchemaEntry>,
    span: Seq<WalRecord>,
    p: int,
)
    requires
        are_latest(records, entries),
        attribution_holds(span, entries),
        0 <= p < entries.len(),
    ensures
        live_at(span, entries, p) <==> is_written(records, span, table_of(entries[p])),
{
    let table = table_of(entries[p]);
    if live_at(span, entries, p) {
        let (i, at, hops) = choose|i: int, at: int, hops: nat|
            0 <= i < span.len() && #[trigger] holds_table(span, entries, i, at)
                && #[trigger] ancestor(entries, at, hops) == Some(p);
        assert(attributable(entries, span[i]));
        let of = span[i]->Segment_table@;
        assert(table_of(entries[position(entries, of)]) == of);
        lemma_covered(records, entries, span, i);
        lemma_climbs(records, entries, at, hops);
        assert(climbs(records, span[i]->Segment_table@, hops) == Some(table));
    }
    if is_written(records, span, table) {
        let (i, hops) = choose|i: int, hops: nat|
            {
                &&& 0 <= i < span.len()
                &&& span[i] is Segment
                &&& is_covered(records, span, i)
                &&& #[trigger] climbs(records, (#[trigger] span[i])->Segment_table@, hops) == Some(
                    table,
                )
            };
        assert(attributable(entries, span[i]));
        let of = span[i]->Segment_table@;
        let at = position(entries, of);
        assert(table_of(entries[at]) == of);
        lemma_covered(records, entries, span, i);
        lemma_climbs(records, entries, at, hops);
        lemma_position(entries, p);
        let j = ancestor(entries, at, hops)->0;
        lemma_position(entries, j);
        assert(holds_table(span, entries, i, at) && ancestor(entries, at, hops) == Some(p));
    }
}

proof fn lemma_replayed(
    records: Seq<WalRecord>,
    entries: Seq<SchemaEntry>,
    span: Seq<WalRecord>,
    start: int,
    n: int,
)
    requires
        are_latest(records, entries),
        attribution_holds(span, entries),
        0 <= start <= records.len(),
        span == records.skip(start),
        0 <= n <= span.len(),
    ensures
        survivors(span, entries, n) == replayed(records, span, n),
    decreases n,
{
    if n > 0 {
        lemma_replayed(records, entries, span, start, n - 1);
        let i = n - 1;
        assert(survives(span, entries, i) == is_replayed(records, span, i)) by {
            assert(attributable(entries, span[i]));
            match span[i] {
                WalRecord::Segment { .. } => {
                    lemma_covered(records, entries, span, i);
                },
                WalRecord::Delta { schema, .. } => {
                    let table = schema.table@;
                    assert(is_delta_of(records[start + i], table));
                    assert(is_recorded(records, table));
                    let p = position(entries, table);
                    assert(table_of(entries[p]) == table);
                    lemma_written(records, entries, span, p);
                },
                _ => {},
            }
        }
    }
}

/// What is replayed is the span behind the last header and the last commit, in its order: every
/// checkpoint; of the segments those a checkpoint of their own stream stands behind, which is the
/// stream whose root table their table's latest parents lead to; and of the schemas those of the
/// tables such segments hold, and of their ancestors.
pub proof fn law_the_uncommitted_span_is_replayed(
    records: Seq<WalRecord>,
    pipeline: Seq<char>,
    sidecar: Sidecar,
    rules: IdentRules,
    outcome: ScanOutcome,
    start: int,
)
    requires
        concludes(records, pipeline, sidecar, rules, outcome),
        outcome is Recover,
        is_span(records, start),
    ensures
        outcome->Recover_0.records@ == replayed(
            records,
            records.skip(start),
            records.len() - start,
        ),
{
    lemma_known(records, pipeline);
    let state = fold(records, pipeline)->Ok_0;
    lemma_one_span(records, start, records.len() - state.span.len());
    lemma_replayed(records, state.schemas, state.span, start, state.span.len() as int);
}

/// The schemas a recovery lists beside its span are of the tables it writes to and of their
/// ancestors: all of those, each once, in the order of their names, and no others.
pub proof fn law_every_written_table_is_ensured(
    records: Seq<WalRecord>,
    pipeline: Seq<char>,
    sidecar: Sidecar,
    rules: IdentRules,
    outcome: ScanOutcome,
    start: int,
    table: Seq<char>,
)
    requires
        concludes(records, pipeline, sidecar, rules, outcome),
        outcome is Recover,
        is_span(records, start),
    ensures
        is_recorded(records, table) && is_written(records, records.skip(start), table)
            <==> exists|q: int|
            0 <= q < outcome->Recover_0.schemas@.len() && (
            #[trigger] outcome->Recover_0.schemas@[q]).schema.table@ == table,
        forall|q: int, r: int|
            0 <= q < r < outcome->Recover_0.schemas@.len() ==> name_before(
                (#[trigger] outcome->Recover_0.schemas@[q]).schema.table@,
                (#[trigger] outcome->Recover_0.schemas@[r]).schema.table@,
            ),
{
    lemma_known(records, pipeline);
    let state = fold(records, pipeline)->Ok_0;
    let entries = state.schemas;
    let listed = outcome->Recover_0.schemas@;
    lemma_one_span(records, start, records.len() - state.span.len());
    let span = records.skip(start);
    assert(lists_live(span, entries, listed));
    assert forall|q: int, r: int| 0 <= q < r < listed.len() implies name_before(
        (#[trigger] listed[q]).schema.table@,
        (#[trigger] listed[r]).schema.table@,
    ) by {
        assert(name_before(table_of(listed[q]), table_of(listed[r])));
    }
    if is_recorded(records, table) && is_written(records, span, table) {
        assert(describes(entries, table));
        let p = position(entries, table);
        assert(table_of(entries[p]) == table);
        lemma_written(records, entries, span, p);
        assert(listed.contains(entries[p]));
        let q = choose|q: int| 0 <= q < listed.len() && listed[q] == entries[p];
        assert(listed[q].schema.table@ == table);
    }
    if exists|q: int| 0 <= q < listed.len() && (#[trigger] listed[q]).schema.table@ == table {
        let q = choose|q: int| 0 <= q < listed.len() && (#[trigger] listed[q]).schema.table@
            == table;
        assert(is_live_entry(span, entries, listed[q]));
        let p = choose|p: int|
            0 <= p < entries.len() && #[trigger] live_at(span, entries, p) && entries[p]
                == listed[q];
        lemma_written(records, entries, span, p);
        lemma_entry_parent(records, entries, p);
    }
}

/// Whether the segment at `i` is named `name`, in the run that the records end in.
spec fn is_named(records: Seq<WalRecord>, i: int, name: Seq<char>) -> bool {
    &&& 0 <= i < records.len()
    &&& records[i] is Segment
    &&& records[i]->file@ == name
    &&& is_one_run(records, i, records.len() as int)
}

proof fn lemma_names(records: Seq<WalRecord>, pipeline: Seq<char>)
    requires
        fold(records, pipeline) is Ok,
    ensures
        forall|name: Seq<char>| #[trigger]
            fold(records, pipeline)->Ok_0.names.contains(name) ==> exists|i: int|
                is_named(records, i, name),
    decreases records.len(),
{
    if records.len() > 0 {
        let before = records.drop_last();
        let record = records.last();
        let last = before.len() as int;
        lemma_names(before, pipeline);
        let state = fold(before, pipeline)->Ok_0;
        let next = fold(records, pipeline)->Ok_0;
        assert(before.push(record) =~= records);
        assert forall|name: Seq<char>| #[trigger] next.names.contains(name) implies exists|i: int|
            is_named(records, i, name) by {
            if state.names.contains(name) {
                let i = choose|i: int| is_named(before, i, name);
                assert(records[i] == before[i]);
                assert forall|k: int| i < k < records.len() implies !((
                #[trigger] records[k]) is Run) by {
                    if k < last {
                        assert(records[k] == before[k]);
                    }
                }
                assert(is_named(records, i, name));
            } else {
                assert(is_named(records, last, name));
            }
        }
    }
}

/// Whether the record at `i` is the one a scan stops at, with `outcome`: a header of another
/// pipeline, else of another version; a segment whose name is none that the run of the last header
/// before it gives, else one that the run gave before. All before it are sound.
pub open spec fn is_refused_at(
    records: Seq<WalRecord>,
    pipeline: Seq<char>,
    i: int,
    outcome: ScanOutcome,
) -> bool {
    let before = records.take(i);
    &&& 0 <= i < records.len()
    &&& are_own_headers(before, pipeline)
    &&& are_own_segments(before)
    &&& match outcome {
        ScanOutcome::ForeignPipeline { occupant } => records[i] is Run && records[i]->pipeline
            == occupant && occupant@ != pipeline,
        ScanOutcome::Unsupported { found, supported } => records[i] is Run
            && records[i]->pipeline@ == pipeline && records[i]->format_version == found && found
            != supported && supported == WAL_FORMAT_VERSION,
        ScanOutcome::Damaged(Damage::SegmentName(fault)) => records[i] is Segment && exists|h: int|
            #[trigger] is_last_header(before, h) && name_fault(
                before[h]->load_id,
                records[i]->file,
            ) == Some(fault),
        ScanOutcome::Damaged(Damage::Repeated { file }) => records[i] is Segment
            && records[i]->file == file && exists|k: int|
            {
                &&& 0 <= k < i
                &&& (#[trigger] before[k]) is Segment
                &&& before[k]->file@ == file@
                &&& is_one_run(before, k, i)
            },
        _ => false,
    }
}

/// The outcome a fault of folding comes to.
spec fn outcome_of(fault: FoldFault) -> ScanOutcome {
    match fault {
        FoldFault::Foreign { occupant } => ScanOutcome::ForeignPipeline { occupant },
        FoldFault::Unsupported { found } => ScanOutcome::Unsupported {
            found,
            supported: WAL_FORMAT_VERSION,
        },
        FoldFault::SegmentName(fault) => ScanOutcome::Damaged(Damage::SegmentName(fault)),
        FoldFault::Repeated { file } => ScanOutcome::Damaged(Damage::Repeated { file }),
    }
}

proof fn lemma_refused(records: Seq<WalRecord>, pipeline: Seq<char>)
    ensures
        fold(records, pipeline) matches Err(fault) ==> (exists|i: int| #[trigger]
            is_refused_at(records, pipeline, i, outcome_of(fault))) && !(are_own_headers(
            records,
            pipeline,
        ) && are_own_segments(records)),
    decreases records.len(),
{
    if let Err(fault) = fold(records, pipeline) {
        let before = records.drop_last();
        let record = records.last();
        let last = before.len() as int;
        lemma_refused(before, pipeline);
        assert(before.push(record) =~= records);
        assert(records.take(last) =~= before);
        match fold(before, pipeline) {
            Err(_) => {
                let i = choose|i: int| #[trigger]
                    is_refused_at(before, pipeline, i, outcome_of(fault));
                assert(records.take(i) =~= before.take(i));
                assert(records[i] == before[i]);
                assert(is_refused_at(records, pipeline, i, outcome_of(fault)));
                if are_own_headers(records, pipeline) && are_own_segments(records) {
                    lemma_sound_before(records, pipeline);
                }
            },
            Ok(state) => {
                lemma_known(before, pipeline);
                lemma_names(before, pipeline);
                assert(records[last] == record);
                if let FoldFault::Repeated { file } = fault {
                    let k = choose|k: int| is_named(before, k, file@);
                    assert(before[k] is Segment);
                    assert(is_one_run(before, k, last));
                    lemma_one_run_stays(before, record, k, last);
                    assert(records[k] == before[k]);
                }
                if let FoldFault::SegmentName(of) = fault {
                    let h = choose|h: int| #[trigger]
                        is_last_header(before, h) && before[h]->load_id == state.load_id->0;
                    assert(records[h] == before[h]);
                    assert(is_one_run(before, h, last));
                    lemma_one_run_stays(before, record, h, last);
                }
                assert(is_refused_at(records, pipeline, last, outcome_of(fault)));
            },
        }
    }
}

proof fn lemma_sound_before(records: Seq<WalRecord>, pipeline: Seq<char>)
    requires
        records.len() > 0,
        are_own_headers(records, pipeline),
        are_own_segments(records),
    ensures
        are_own_headers(records.drop_last(), pipeline),
        are_own_segments(records.drop_last()),
{
    let before = records.drop_last();
    let record = records.last();
    assert(before.push(record) =~= records);
    assert forall|h: int| 0 <= h < before.len() && (#[trigger] before[h]) is Run implies
        before[h]->pipeline@ == pipeline && before[h]->format_version == WAL_FORMAT_VERSION by {
        assert(before[h] == records[h]);
    }
    assert forall|h: int, i: int|
        0 <= h < i < before.len() && (#[trigger] before[h]) is Run && (
        #[trigger] before[i]) is Segment && is_one_run(before, h, i) implies name_fault(
        before[h]->load_id,
        before[i]->file,
    ) is None by {
        assert(before[h] == records[h] && before[i] == records[i]);
        lemma_one_run_stays(before, record, h, i);
    }
    assert forall|i: int, j: int|
        0 <= i < j < before.len() && (#[trigger] before[i]) is Segment && (
        #[trigger] before[j]) is Segment && is_one_run(before, i, j) implies before[i]->file@
        != before[j]->file@ by {
        assert(before[i] == records[i] && before[j] == records[j]);
        lemma_one_run_stays(before, record, i, j);
    }
}

/// A manifest is refused for a header or a segment's name exactly where one of them is not its own,
/// and for the first that is not.
pub proof fn law_the_first_foreign_record_decides(
    records: Seq<WalRecord>,
    pipeline: Seq<char>,
    sidecar: Sidecar,
    rules: IdentRules,
    outcome: ScanOutcome,
)
    requires
        concludes(records, pipeline, sidecar, rules, outcome),
    ensures
        !(are_own_headers(records, pipeline) && are_own_segments(records)) <==> exists|i: int|
            #[trigger] is_refused_at(records, pipeline, i, outcome),
{
    lemma_refused(records, pipeline);
    if fold(records, pipeline) is Ok {
        lemma_known(records, pipeline);
        assert forall|i: int| !#[trigger] is_refused_at(records, pipeline, i, outcome) by {
        }
    }
}

/// Whether `stream` has a checkpoint in `span`, the last of which names the root table `root`.
pub open spec fn is_checkpointed_at(
    span: Seq<WalRecord>,
    stream: Seq<char>,
    root: Seq<char>,
) -> bool {
    is_checkpointed_behind(span, -1, stream, root)
}

/// Whether two streams of `span` were checkpointed last with one root table, `root`.
pub open spec fn share_a_root(
    span: Seq<WalRecord>,
    one: Seq<char>,
    other: Seq<char>,
    root: Seq<char>,
) -> bool {
    &&& one != other
    &&& is_checkpointed_at(span, one, root)
    &&& is_checkpointed_at(span, other, root)
}

/// Whether two tables without a parent have latest schemas that name one root, `root`.
pub open spec fn name_one_root(
    records: Seq<WalRecord>,
    one: Seq<char>,
    other: Seq<char>,
    root: Seq<char>,
) -> bool {
    &&& one != other
    &&& is_root(records, one)
    &&& is_root(records, other)
    &&& records[latest(records, one)]->schema.root@ == root
    &&& records[latest(records, other)]->schema.root@ == root
}

/// Whether `table` leads to a table without a parent.
pub open spec fn leads_to_a_root(records: Seq<WalRecord>, table: Seq<char>) -> bool {
    exists|hops: nat, root: Seq<char>| #[trigger]
        climbs(records, table, hops) == Some(root) && #[trigger] is_root(records, root)
}

/// Whether the segments of `span` can be told apart by stream: no two checkpointed streams share a
/// root table, no two tables without a parent name the root of a checkpointed stream, and every
/// segment's table leads to such a table.
pub open spec fn is_attributed(records: Seq<WalRecord>, span: Seq<WalRecord>) -> bool {
    &&& forall|one: Seq<char>, other: Seq<char>, root: Seq<char>|
        !#[trigger] share_a_root(span, one, other, root)
    &&& forall|stream: Seq<char>, one: Seq<char>, other: Seq<char>, root: Seq<char>| #[trigger]
        is_checkpointed_at(span, stream, root) ==> !#[trigger] name_one_root(
            records,
            one,
            other,
            root,
        )
    &&& forall|i: int|
        0 <= i < span.len() && (#[trigger] span[i]) is Segment ==> leads_to_a_root(
            records,
            span[i]->Segment_table@,
        )
}

proof fn lemma_checkpointed_at(span: Seq<WalRecord>, stream: Seq<char>, root: Seq<char>)
    ensures
        is_checkpointed_at(span, stream, root) <==> checkpointed(span, stream) && stream_root(
            span,
            stream,
        ) == root,
{
    if checkpointed(span, stream) {
        lemma_last_checkpoint(span, stream);
        let at = last_checkpoint(span, stream);
        assert(last_at(span, stream, at));
        assert forall|k: int| at < k < span.len() && (#[trigger] span[k]) is Checkpoint implies
            span[k]->stream@ != stream by {
            assert(!checkpoints(span[k], stream));
        }
        assert(span[at] is Checkpoint);
        if stream_root(span, stream) == root {
            assert(is_checkpointed_behind(span, -1, stream, root));
        }
    }
    if is_checkpointed_at(span, stream, root) {
        let at = choose|at: int|
            {
                &&& -1 < at < span.len()
                &&& #[trigger] span[at] is Checkpoint
                &&& span[at]->stream@ == stream
                &&& span[at]->root@ == root
                &&& forall|k: int|
                    at < k < span.len() && (#[trigger] span[k]) is Checkpoint ==> span[k]->stream@
                        != stream
            };
        assert(checkpoints(span[at], stream));
        assert(checkpointed(span, stream));
        let last = last_checkpoint(span, stream);
        lemma_last_checkpoint(span, stream);
        assert(last_at(span, stream, last));
        if last < at {
            assert(!checkpoints(span[at], stream));
        } else if at < last {
            assert(span[last] is Checkpoint);
        }
    }
}

proof fn lemma_ambiguous(span: Seq<WalRecord>)
    ensures
        ambiguous(span) <==> exists|one: Seq<char>, other: Seq<char>, root: Seq<char>| #[trigger]
            share_a_root(span, one, other, root),
{
    if ambiguous(span) {
        let stream = choose|stream: Seq<char>| #[trigger] shadowed(span, stream);
        let other = choose|other: Seq<char>| #[trigger]
            checkpointed(span, other) && name_before(other, stream) && stream_root(span, other)
                == stream_root(span, stream);
        let root = stream_root(span, stream);
        lemma_checkpointed_at(span, stream, root);
        lemma_checkpointed_at(span, other, root);
        lemma_bytes_before_irreflexive(vstd::utf8::encode_utf8(stream));
        assert(share_a_root(span, stream, other, root));
    }
    if exists|one: Seq<char>, other: Seq<char>, root: Seq<char>| #[trigger]
        share_a_root(span, one, other, root) {
        let (one, other, root) = choose|one: Seq<char>, other: Seq<char>, root: Seq<char>|
            #[trigger] share_a_root(span, one, other, root);
        lemma_checkpointed_at(span, one, root);
        lemma_checkpointed_at(span, other, root);
        lemma_name_before_total(one, other);
        if name_before(one, other) {
            assert(shadowed(span, other));
        } else {
            assert(shadowed(span, one));
        }
    }
}

/// Whether the entry at `i` has no parent and names the root `root`.
spec fn is_root_onto(entries: Seq<SchemaEntry>, root: Seq<char>, i: int) -> bool {
    entries[i].schema.parent is None && entries[i].schema.root@ == root
}

proof fn lemma_roots_onto(entries: Seq<SchemaEntry>, root: Seq<char>, n: int)
    requires
        0 <= n <= entries.len(),
    ensures
        roots_onto(entries, root, n) > 0 <==> exists|i: int|
            0 <= i < n && #[trigger] is_root_onto(entries, root, i),
        roots_onto(entries, root, n) > 1 <==> exists|i: int, j: int|
            0 <= i < j < n && #[trigger] is_root_onto(entries, root, i) && #[trigger] is_root_onto(
                entries,
                root,
                j,
            ),
    decreases n,
{
    if n > 0 {
        lemma_roots_onto(entries, root, n - 1);
        assert(is_root_onto(entries, root, n - 1) == (entries[n - 1].schema.parent is None
            && entries[n - 1].schema.root@ == root));
    }
}

proof fn lemma_entry_root(records: Seq<WalRecord>, entries: Seq<SchemaEntry>, p: int)
    requires
        are_latest(records, entries),
        0 <= p < entries.len(),
    ensures
        records[latest(records, table_of(entries[p]))]->schema == entries[p].schema,
{
    let entry = entries[p];
    assert(is_latest_entry(records, entry));
    let i = choose|i: int| #[trigger]
        is_latest(records, entry.schema.table@, i) && entry.schema == records[i]->schema
            && entry.mode == records[i]->mode;
    lemma_latest(records, table_of(entry), i);
}

proof fn lemma_colliding(records: Seq<WalRecord>, entries: Seq<SchemaEntry>, root: Seq<char>)
    requires
        are_latest(records, entries),
    ensures
        roots_onto(entries, root, entries.len() as int) > 1 <==> exists|
            one: Seq<char>,
            other: Seq<char>,
        | #[trigger] name_one_root(records, one, other, root),
{
    let n = entries.len() as int;
    lemma_roots_onto(entries, root, n);
    if roots_onto(entries, root, n) > 1 {
        let (i, j) = choose|i: int, j: int|
            0 <= i < j < n && #[trigger] is_root_onto(entries, root, i) && #[trigger] is_root_onto(
                entries,
                root,
                j,
            );
        lemma_entry_parent(records, entries, i);
        lemma_entry_parent(records, entries, j);
        lemma_entry_root(records, entries, i);
        lemma_entry_root(records, entries, j);
        assert(name_one_root(records, table_of(entries[i]), table_of(entries[j]), root));
    }
    if exists|one: Seq<char>, other: Seq<char>| #[trigger]
        name_one_root(records, one, other, root) {
        let (one, other) = choose|one: Seq<char>, other: Seq<char>| #[trigger]
            name_one_root(records, one, other, root);
        assert(describes(entries, one) && describes(entries, other));
        let i = position(entries, one);
        let j = position(entries, other);
        assert(table_of(entries[i]) == one && table_of(entries[j]) == other);
        lemma_entry_parent(records, entries, i);
        lemma_entry_parent(records, entries, j);
        lemma_entry_root(records, entries, i);
        lemma_entry_root(records, entries, j);
        assert(is_root_onto(entries, root, i) && is_root_onto(entries, root, j));
    }
}

proof fn lemma_rooted(records: Seq<WalRecord>, entries: Seq<SchemaEntry>, table: Seq<char>)
    requires
        are_latest(records, entries),
    ensures
        describes(entries, table) && is_rooted(entries, position(entries, table))
            <==> leads_to_a_root(records, table),
{
    if describes(entries, table) {
        let p = position(entries, table);
        assert(table_of(entries[p]) == table);
        if is_rooted(entries, p) {
            let r = choose|r: int| 0 <= r < entries.len() && #[trigger] ends_at(entries, p, r);
            let hops = choose|hops: nat| #[trigger]
                ancestor(entries, p, hops) == Some(r) && entries[r].schema.parent is None;
            lemma_climbs(records, entries, p, hops);
            lemma_entry_parent(records, entries, r);
            assert(climbs(records, table, hops) == Some(table_of(entries[r])) && is_root(
                records,
                table_of(entries[r]),
            ));
        }
        if leads_to_a_root(records, table) {
            let (hops, root) = choose|hops: nat, root: Seq<char>| #[trigger]
                climbs(records, table, hops) == Some(root) && #[trigger] is_root(records, root);
            lemma_climbs(records, entries, p, hops);
            assert(describes(entries, root));
            let r = ancestor(entries, p, hops)->0;
            lemma_entry_parent(records, entries, r);
            assert(ends_at(entries, p, r));
        }
    } else if leads_to_a_root(records, table) {
        let (hops, root) = choose|hops: nat, root: Seq<char>| #[trigger]
            climbs(records, table, hops) == Some(root) && #[trigger] is_root(records, root);
        assert(!is_recorded(records, table));
        assert(hops == 0);
    }
}

proof fn lemma_attributed(records: Seq<WalRecord>, entries: Seq<SchemaEntry>, span: Seq<WalRecord>)
    requires
        are_latest(records, entries),
    ensures
        attribution_holds(span, entries) <==> is_attributed(records, span),
{
    lemma_ambiguous(span);
    assert forall|root: Seq<char>| #[trigger] checkpointed_root(span, root) implies exists|
        stream: Seq<char>,
    | #[trigger] is_checkpointed_at(span, stream, root) by {
        let stream = choose|stream: Seq<char>| #[trigger]
            checkpointed(span, stream) && stream_root(span, stream) == root;
        lemma_checkpointed_at(span, stream, root);
    }
    if attribution_holds(span, entries) {
        assert forall|stream: Seq<char>, one: Seq<char>, other: Seq<char>, root: Seq<char>|
            #[trigger] is_checkpointed_at(span, stream, root) implies !#[trigger] name_one_root(
            records,
            one,
            other,
            root,
        ) by {
            lemma_checkpointed_at(span, stream, root);
            lemma_colliding(records, entries, root);
            assert(checkpointed_root(span, root));
        }
        assert forall|i: int|
            0 <= i < span.len() && (#[trigger] span[i]) is Segment implies leads_to_a_root(
            records,
            span[i]->Segment_table@,
        ) by {
            assert(attributable(entries, span[i]));
            lemma_rooted(records, entries, span[i]->Segment_table@);
        }
    }
    if is_attributed(records, span) {
        if colliding(span, entries) {
            let root = choose|root: Seq<char>| #[trigger]
                checkpointed_root(span, root) && roots_onto(entries, root, entries.len() as int)
                    > 1;
            lemma_colliding(records, entries, root);
        }
        assert forall|i: int| 0 <= i < span.len() implies attributable(
            entries,
            #[trigger] span[i],
        ) by {
            if span[i] is Segment {
                lemma_rooted(records, entries, span[i]->Segment_table@);
            }
        }
    }
}

/// A sound manifest whose uncommitted span is checkpointed is recovered wherever its segments can
/// be told apart by stream and there is a next commit sequence, and is damage else.
pub proof fn law_what_can_be_attributed_is_recovered(
    records: Seq<WalRecord>,
    pipeline: Seq<char>,
    sidecar: Sidecar,
    rules: IdentRules,
    outcome: ScanOutcome,
    start: int,
    greatest: u64,
)
    requires
        concludes(records, pipeline, sidecar, rules, outcome),
        are_own_headers(records, pipeline),
        are_own_segments(records),
        sidecar == (Sidecar::Recorded { rules, valid: true }),
        is_span(records, start),
        exists|h: int| is_last_header(records, h),
        exists|k: int| start <= k < records.len() && (#[trigger] records[k]) is Checkpoint,
        is_greatest_commit(records, greatest),
    ensures
        outcome is Recover <==> is_attributed(records, records.skip(start)) && greatest < u64::MAX,
        !is_attributed(records, records.skip(start)) <==> outcome matches ScanOutcome::Damaged(
            Damage::Coverage(_),
        ),
        is_attributed(records, records.skip(start)) && greatest == u64::MAX <==> outcome
            == ScanOutcome::Damaged(Damage::LastSequence { committed: u64::MAX }),
{
    lemma_refused(records, pipeline);
    lemma_known(records, pipeline);
    let state = fold(records, pipeline)->Ok_0;
    let span = records.skip(start);
    lemma_one_span(records, start, records.len() - state.span.len());
    let k = choose|k: int| start <= k < records.len() && (#[trigger] records[k]) is Checkpoint;
    assert(span[k - start] is Checkpoint);
    let h = choose|h: int| is_last_header(records, h);
    assert(records[h] is Run);
    lemma_attributed(records, state.schemas, span);
    lemma_one_greatest(records, greatest, state.max_committed);
}

proof fn lemma_one_greatest(records: Seq<WalRecord>, a: u64, b: u64)
    requires
        is_greatest_commit(records, a),
        is_greatest_commit(records, b),
    ensures
        a == b,
{
}

/// A sound manifest that lacks the rules it was written under, or was written under others, is
/// damage, whatever it holds.
pub proof fn law_other_rules_are_damage(
    records: Seq<WalRecord>,
    pipeline: Seq<char>,
    sidecar: Sidecar,
    rules: IdentRules,
    outcome: ScanOutcome,
)
    requires
        concludes(records, pipeline, sidecar, rules, outcome),
        are_own_headers(records, pipeline),
        are_own_segments(records),
    ensures
        sidecar != (Sidecar::Recorded { rules, valid: true }) <==> outcome
            matches ScanOutcome::Damaged(Damage::Sidecar(_)),
{
    lemma_refused(records, pipeline);
}

proof fn lemma_climbs_on(records: Seq<WalRecord>, table: Seq<char>, hops: nat, at: Seq<char>)
    requires
        climbs(records, table, hops) == Some(at),
        is_recorded(records, at),
        parent_of(records, at) is Some,
    ensures
        climbs(records, table, hops + 1) == Some(parent_of(records, at)->0@),
    decreases hops,
{
    reveal_with_fuel(climbs, 2);
    if hops > 0 {
        let parent = parent_of(records, table)->0@;
        lemma_climbs_on(records, parent, (hops - 1) as nat, at);
    }
}

/// Damage to the attribution names its cause: a root table that two checkpointed streams share; one
/// that more tables without a parent than one name; a table without a recorded schema that a
/// segment's table leads to; or a segment's table whose parents never end.
pub proof fn law_coverage_faults_name_their_cause(
    records: Seq<WalRecord>,
    pipeline: Seq<char>,
    sidecar: Sidecar,
    rules: IdentRules,
    fault: CoverageFault,
    start: int,
)
    requires
        concludes(
            records,
            pipeline,
            sidecar,
            rules,
            ScanOutcome::Damaged(Damage::Coverage(fault)),
        ),
        is_span(records, start),
    ensures
        ({
            let span = records.skip(start);
            match fault {
                CoverageFault::Ambiguous { root } => exists|one: Seq<char>, other: Seq<char>|
                    #[trigger] share_a_root(span, one, other, root@),
                CoverageFault::Colliding { count, root } => {
                    &&& count > 1
                    &&& exists|stream: Seq<char>| #[trigger]
                        is_checkpointed_at(span, stream, root@)
                    &&& exists|one: Seq<char>, other: Seq<char>| #[trigger]
                        name_one_root(records, one, other, root@)
                },
                CoverageFault::NoSchema { table } => !is_recorded(records, table@) && exists|
                    i: int,
                    hops: nat,
                |
                    {
                        &&& 0 <= i < span.len()
                        &&& span[i] is Segment
                        &&& #[trigger] climbs(
                            records,
                            (#[trigger] span[i])->Segment_table@,
                            hops,
                        ) == Some(table@)
                    },
                CoverageFault::Endless { table } => is_recorded(records, table@) && (exists|i: int|
                    {
                        &&& 0 <= i < span.len()
                        &&& (#[trigger] span[i]) is Segment
                        &&& span[i]->Segment_table@ == table@
                    }) && forall|hops: nat| (#[trigger] climbs(records, table@, hops)) is Some,
            }
        }),
{
    lemma_known(records, pipeline);
    let state = fold(records, pipeline)->Ok_0;
    let entries = state.schemas;
    let span = records.skip(start);
    lemma_one_span(records, start, records.len() - state.span.len());
    assert(is_fault(span, entries, fault));
    match fault {
        CoverageFault::Ambiguous { root } => {
            let stream = choose|stream: Seq<char>|
                {
                    &&& #[trigger] shadowed(span, stream)
                    &&& stream_root(span, stream) == root@
                    &&& forall|other: Seq<char>|
                        name_before(other, stream) ==> !#[trigger] shadowed(span, other)
                };
            let other = choose|other: Seq<char>| #[trigger]
                checkpointed(span, other) && name_before(other, stream) && stream_root(span, other)
                    == stream_root(span, stream);
            lemma_checkpointed_at(span, stream, root@);
            lemma_checkpointed_at(span, other, root@);
            lemma_bytes_before_irreflexive(vstd::utf8::encode_utf8(stream));
            assert(share_a_root(span, stream, other, root@));
        },
        CoverageFault::Colliding { count, root } => {
            lemma_colliding(records, entries, root@);
            let stream = choose|stream: Seq<char>| #[trigger]
                checkpointed(span, stream) && stream_root(span, stream) == root@;
            lemma_checkpointed_at(span, stream, root@);
            assert(is_checkpointed_at(span, stream, root@));
        },
        CoverageFault::NoSchema { table } => {
            let i = choose|i: int|
                {
                    &&& 0 <= i < span.len()
                    &&& (forall|k: int|
                        0 <= k < i ==> attributable(entries, #[trigger] span[k]))
                    &&& match #[trigger] span[i] {
                        WalRecord::Segment { table: of, .. } => if describes(entries, of@) {
                            ends_missing(entries, position(entries, of@), table@)
                        } else {
                            of@ == table@
                        },
                        _ => false,
                    }
                };
            let of = span[i]->Segment_table@;
            if describes(entries, of) {
                let p = position(entries, of);
                assert(table_of(entries[p]) == of);
                let hops = choose|hops: nat|
                    match #[trigger] ancestor(entries, p, hops) {
                        Some(j) => match entries[j].schema.parent {
                            Some(parent) => parent@ == table@ && !describes(entries, table@),
                            None => false,
                        },
                        None => false,
                    };
                let j = ancestor(entries, p, hops)->0;
                lemma_climbs(records, entries, p, hops);
                lemma_entry_parent(records, entries, j);
                lemma_climbs_on(records, of, hops, table_of(entries[j]));
                assert(climbs(records, span[i]->Segment_table@, hops + 1) == Some(table@));
            } else {
                assert(climbs(records, span[i]->Segment_table@, 0) == Some(table@));
            }
        },
        CoverageFault::Endless { table } => {
            let i = choose|i: int|
                {
                    &&& 0 <= i < span.len()
                    &&& (forall|k: int|
                        0 <= k < i ==> attributable(entries, #[trigger] span[k]))
                    &&& match #[trigger] span[i] {
                        WalRecord::Segment { table: of, .. } => of@ == table@ && describes(
                            entries,
                            of@,
                        ) && endless(entries, position(entries, of@)),
                        _ => false,
                    }
                };
            let p = position(entries, table@);
            assert(table_of(entries[p]) == table@);
            assert forall|hops: nat| (#[trigger] climbs(records, table@, hops)) is Some by {
                lemma_climbs(records, entries, p, hops);
                assert(ancestor(entries, p, hops) is Some);
            }
            assert(span[i] is Segment);
        },
    }
}

} // verus!
