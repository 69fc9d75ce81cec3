//! Classifying what a manifest holds, before any segment is touched: nothing, nothing worth
//! replaying, a span to replay, damage, or another pipeline's or version's.

use crate::text::{
    dec, lemma_name_ordered_strict, name_before, order_of, orders, push_decimal,
};
use crate::wal::coverage::{
    attribution_holds, belongs_to, checkpoints, filter_covered, has_checkpoint, holds_table,
    is_fault, is_kept, law_kept_segments_are_covered, Coverage, CoverageFault,
};
use crate::wal::lineage::{
    ancestor, describes, distinct, is_live, lemma_ancestor_adds, position, put, table_of, Link,
    SchemaEntry, SchemaLog,
};
use crate::wal::lines::{collect_records, records_from, Lines, ManifestFault};
use crate::wal::record::{
    name_fault, verify_segment_file, NameFault, WalRecord, WAL_FORMAT_VERSION,
};
use crate::wal::sidecar::{drift, sidecar_drift, IdentRules, Sidecar, SidecarFault};
use vstd::hash_map::StringHashMap;
use vstd::prelude::*;
use vstd::string::*;

verus! {

/// What is known after some records: the load of the last run, the greatest sequence it
/// committed, the records since, the tables of the whole manifest, and the run's segment names.
pub ghost struct FoldState {
    pub load_id: Option<String>,
    pub max_committed: u64,
    pub span: Seq<WalRecord>,
    pub schemas: Seq<SchemaEntry>,
    pub names: Set<Seq<char>>,
}

/// Why the records cannot be folded.
#[derive(Debug)]
pub enum FoldFault {
    /// A header names another pipeline: this one.
    Foreign { occupant: String },
    /// A header names another format version.
    Unsupported { found: u32 },
    /// A segment's name did not come from the run's writer.
    SegmentName(NameFault),
    /// A segment's name occurs twice in its run.
    Repeated { file: String },
}

/// Nothing known.
pub open spec fn fold_start() -> FoldState {
    FoldState {
        load_id: None,
        max_committed: 0,
        span: Seq::empty(),
        schemas: Seq::empty(),
        names: Set::empty(),
    }
}

/// The tables once `record` is read.
pub open spec fn schemas_with(schemas: Seq<SchemaEntry>, record: WalRecord) -> Seq<SchemaEntry> {
    match record {
        WalRecord::Delta { schema, mode, .. } => put(schemas, SchemaEntry { schema, mode }),
        _ => schemas,
    }
}

/// What is known once `record` is read too.
///
/// A header of another pipeline is refused before its version is looked at: every other outcome
/// lets the log be cleared, and another pipeline's must not be.
pub open spec fn fold_step(
    state: FoldState,
    pipeline: Seq<char>,
    record: WalRecord,
) -> Result<FoldState, FoldFault> {
    let schemas = schemas_with(state.schemas, record);
    match record {
        WalRecord::Run { format_version, load_id, pipeline: of } => if of@ != pipeline {
            Err(FoldFault::Foreign { occupant: of })
        } else if format_version != WAL_FORMAT_VERSION {
            Err(FoldFault::Unsupported { found: format_version })
        } else {
            Ok(
                FoldState {
                    load_id: Some(load_id),
                    max_committed: 0,
                    span: Seq::empty(),
                    schemas,
                    names: Set::empty(),
                },
            )
        },
        WalRecord::Committed { commit_seq } => Ok(
            FoldState {
                max_committed: if commit_seq > state.max_committed {
                    commit_seq
                } else {
                    state.max_committed
                },
                span: Seq::empty(),
                schemas,
                ..state
            },
        ),
        WalRecord::Segment { file, .. } => if state.load_id is Some && name_fault(
            state.load_id->0,
            file,
        ) is Some {
            Err(FoldFault::SegmentName(name_fault(state.load_id->0, file)->0))
        } else if state.names.contains(file@) {
            Err(FoldFault::Repeated { file })
        } else {
            Ok(
                FoldState {
                    span: state.span.push(record),
                    schemas,
                    names: state.names.insert(file@),
                    ..state
                },
            )
        },
        _ => Ok(FoldState { span: state.span.push(record), schemas, ..state }),
    }
}

/// What is known after `records`.
pub open spec fn fold(records: Seq<WalRecord>, pipeline: Seq<char>) -> Result<FoldState, FoldFault>
    decreases records.len(),
{
    if records.len() == 0 {
        Ok(fold_start())
    } else {
        match fold(records.drop_last(), pipeline) {
            Ok(state) => fold_step(state, pipeline, records.last()),
            Err(fault) => Err(fault),
        }
    }
}

/// A fault stays: what follows it is not read.
proof fn lemma_fault_stays(records: Seq<WalRecord>, pipeline: Seq<char>, n: int)
    requires
        0 <= n <= records.len(),
        fold(records.take(n), pipeline) is Err,
    ensures
        fold(records, pipeline) == fold(records.take(n), pipeline),
    decreases records.len() - n,
{
    if n == records.len() {
        assert(records.take(n) =~= records);
    } else {
        assert(records.take(n + 1).drop_last() =~= records.take(n));
        lemma_fault_stays(records, pipeline, n + 1);
    }
}

struct Folded {
    load_id: Option<String>,
    max_committed: u64,
    span: Vec<WalRecord>,
    log: SchemaLog,
    names: StringHashMap<bool>,
}

impl Folded {
    spec fn is(&self, state: FoldState) -> bool {
        &&& self.load_id == state.load_id
        &&& self.max_committed == state.max_committed
        &&& self.span@ == state.span
        &&& self.log.wf()
        &&& self.log@ == state.schemas
        &&& self.names@.dom() == state.names
    }
}

/// Folds `records`, in the order they were written.
fn fold_records(records: &Vec<WalRecord>, pipeline: &String) -> (folded: Result<Folded, FoldFault>)
    ensures
        match folded {
            Ok(folded) => fold(records@, pipeline@) is Ok && folded.is(
                fold(records@, pipeline@)->Ok_0,
            ),
            Err(fault) => fold(records@, pipeline@) == Err::<FoldState, FoldFault>(fault),
        },
{
    let mut folded = Folded {
        load_id: None,
        max_committed: 0,
        span: Vec::new(),
        log: SchemaLog::new(),
        names: StringHashMap::new(),
    };
    let mut i: usize = 0;
    proof {
        assert(records@.take(0) =~= Seq::empty());
        assert(folded.names@.dom() =~= Set::empty());
    }
    while i < records.len()
        invariant
            i <= records@.len(),
            fold(records@.take(i as int), pipeline@) is Ok,
            folded.is(fold(records@.take(i as int), pipeline@)->Ok_0),
        decreases records.len() - i,
    {
        let record: WalRecord = records[i].clone();
        let ghost state = fold(records@.take(i as int), pipeline@)->Ok_0;
        proof {
            assert(records@.take(i + 1).drop_last() =~= records@.take(i as int));
            assert(records@.take(i + 1).last() == record);
        }
        if let WalRecord::Delta { schema, mode, .. } = &record {
            folded.log.record(SchemaEntry { schema: schema.clone(), mode: mode.clone() });
        }
        match record {
            WalRecord::Run { format_version, load_id, pipeline: of } => {
                if !(of == *pipeline) {
                    proof {
                        lemma_fault_stays(records@, pipeline@, i + 1);
                    }
                    return Err(FoldFault::Foreign { occupant: of });
                }
                if format_version != WAL_FORMAT_VERSION {
                    proof {
                        lemma_fault_stays(records@, pipeline@, i + 1);
                    }
                    return Err(FoldFault::Unsupported { found: format_version });
                }
                folded.span = Vec::new();
                folded.names = StringHashMap::new();
                folded.load_id = Some(load_id);
                folded.max_committed = 0;
                proof {
                    assert(folded.names@.dom() =~= Set::empty());
                }
            },
            WalRecord::Committed { commit_seq } => {
                if commit_seq > folded.max_committed {
                    folded.max_committed = commit_seq;
                }
                folded.span = Vec::new();
            },
            WalRecord::Segment { table, file, rows } => {
                if let Some(load_id) = &folded.load_id {
                    match verify_segment_file(load_id, &file) {
                        Ok(_) => {},
                        Err(fault) => {
                            proof {
                                lemma_fault_stays(records@, pipeline@, i + 1);
                            }
                            return Err(FoldFault::SegmentName(fault));
                        },
                    }
                }
                if folded.names.contains_key(file.as_str()) {
                    proof {
                        lemma_fault_stays(records@, pipeline@, i + 1);
                    }
                    return Err(FoldFault::Repeated { file });
                }
                folded.names.insert(file.clone(), true);
                proof {
                    assert(folded.names@.dom() =~= state.names.insert(file@));
                }
                folded.span.push(WalRecord::Segment { table, file, rows });
            },
            other => {
                folded.span.push(other);
            },
        }
        i = i + 1;
    }
    proof {
        assert(records@.take(i as int) =~= records@);
    }
    Ok(folded)
}

/// The uncommitted tail of a previous run.
#[derive(Debug)]
pub struct RecoverySpan {
    pub load_id: String,
    /// The sequence the recovery commit must use. Where the crash came in a commit, the
    /// destination already holds it and gives back the receipt it gave before.
    pub next_commit_seq: u64,
    /// What is replayed, in order.
    pub records: Vec<WalRecord>,
    /// The latest schema and mode of every table that is replayed into, by name, committed spans
    /// of the manifest included: a fresh session knows none of them.
    pub schemas: Vec<SchemaEntry>,
}

/// Whether the table at `p` is live: a kept segment holds it, or a descendant of it.
pub open spec fn live_at(span: Seq<WalRecord>, entries: Seq<SchemaEntry>, p: int) -> bool {
    exists|i: int, table: int, hops: nat|
        0 <= i < span.len() && #[trigger] holds_table(span, entries, i, table)
            && #[trigger] ancestor(entries, table, hops) == Some(p)
}

/// Whether the record at `i` is replayed: it is kept, and a schema only where its table is live.
pub open spec fn survives(span: Seq<WalRecord>, entries: Seq<SchemaEntry>, i: int) -> bool {
    &&& is_kept(span, entries, i)
    &&& match span[i] {
        WalRecord::Delta { schema, .. } => describes(entries, schema.table@) && live_at(
            span,
            entries,
            position(entries, schema.table@),
        ),
        _ => true,
    }
}

/// The records among the first `n` that are replayed.
pub open spec fn survivors(span: Seq<WalRecord>, entries: Seq<SchemaEntry>, n: int) -> Seq<
    WalRecord,
>
    decreases n,
{
    if n <= 0 {
        Seq::empty()
    } else if survives(span, entries, n - 1) {
        survivors(span, entries, n - 1).push(span[n - 1])
    } else {
        survivors(span, entries, n - 1)
    }
}

/// Whether `entry` is that of a live table.
pub open spec fn is_live_entry(
    span: Seq<WalRecord>,
    entries: Seq<SchemaEntry>,
    entry: SchemaEntry,
) -> bool {
    exists|p: int|
        0 <= p < entries.len() && #[trigger] live_at(span, entries, p) && entries[p] == entry
}

/// Whether `listed` are the entries of the live tables, each once, in the order of their names.
pub open spec fn lists_live(
    span: Seq<WalRecord>,
    entries: Seq<SchemaEntry>,
    listed: Seq<SchemaEntry>,
) -> bool {
    &&& forall|q: int|
        0 <= q < listed.len() ==> is_live_entry(span, entries, #[trigger] listed[q])
    &&& forall|p: int|
        0 <= p < entries.len() && #[trigger] live_at(span, entries, p) ==> listed.contains(
            entries[p],
        )
    &&& forall|q: int, r: int|
        0 <= q < r < listed.len() ==> name_before(
            table_of(#[trigger] listed[q]),
            table_of(#[trigger] listed[r]),
        )
}

/// Why a manifest cannot support replay.
#[derive(Debug)]
pub enum Damage {
    /// The log's directory is a symlink.
    Symlinked { dir: String },
    /// The manifest could not be opened.
    Unreadable { error: String },
    /// Its lines give no records.
    Manifest(ManifestFault),
    /// A segment's name did not come from its run's writer.
    SegmentName(NameFault),
    /// A segment's name occurs twice in its run.
    Repeated { file: String },
    /// It was not written under the rules it is read under.
    Sidecar(SidecarFault),
    /// Its segments cannot be attributed to streams.
    Coverage(CoverageFault),
    /// This committed sequence has none after it.
    LastSequence { committed: u64 },
}

impl Damage {
    /// The damage in words.
    pub open spec fn text(self) -> Seq<char> {
        match self {
            Damage::Symlinked { dir } => "the WAL directory `"@ + dir@
                + "` is a symlink — the write side refuses symlinked WAL directories, so the read side refuses to follow one into a foreign target"@,
            Damage::Unreadable { error } => "manifest is unreadable: "@ + error@,
            Damage::Manifest(fault) => fault.text(),
            Damage::SegmentName(fault) => fault.text(),
            Damage::Repeated { file } => "the run's span names segment `"@ + file@
                + "` more than once — the writer mints one monotonic sequence per run, so a repeat is crafted amplification, not a shape it could produce"@,
            Damage::Sidecar(fault) => fault.text(),
            Damage::Coverage(fault) => fault.text(),
            Damage::LastSequence { committed } => "committed sequence "@ + dec(committed as nat)
                + " leaves no next commit sequence — no writer emits it, so the manifest was not written by one"@,
        }
    }

    /// The damage in words.
    pub fn message(&self) -> (message: String)
        ensures
            message@ == self.text(),
    {
        let mut message = String::new();
        match self {
            Damage::Symlinked { dir } => {
                message.append("the WAL directory `");
                message.append(dir.as_str());
                message.append("` is a symlink — the write side refuses symlinked WAL directories, so the read side refuses to follow one into a foreign target");
            },
            Damage::Unreadable { error } => {
                message.append("manifest is unreadable: ");
                message.append(error.as_str());
            },
            Damage::Manifest(fault) => {
                message.append(fault.message().as_str());
            },
            Damage::SegmentName(fault) => {
                message.append(fault.message().as_str());
            },
            Damage::Repeated { file } => {
                message.append("the run's span names segment `");
                message.append(file.as_str());
                message.append("` more than once — the writer mints one monotonic sequence per run, so a repeat is crafted amplification, not a shape it could produce");
            },
            Damage::Sidecar(fault) => {
                message.append(fault.message().as_str());
            },
            Damage::Coverage(fault) => {
                message.append(fault.message().as_str());
            },
            Damage::LastSequence { committed } => {
                message.append("committed sequence ");
                push_decimal(&mut message, *committed as u128);
                message.append(" leaves no next commit sequence — no writer emits it, so the manifest was not written by one");
            },
        }
        proof {
            assert(message@ =~= self.text());
        }
        message
    }
}

/// What a scan finds.
#[derive(Debug)]
pub enum ScanOutcome {
    /// No manifest: nothing was ever written here.
    Nothing,
    /// A manifest with nothing to replay. There is residue on disk to clear.
    Discard,
    /// A span to replay.
    Recover(RecoverySpan),
    /// A manifest that cannot support replay: the log is cleared and the source extracted again.
    Damaged(Damage),
    /// The log is another pipeline's, and is left exactly as it is.
    ForeignPipeline { occupant: String },
    /// A manifest of another format version.
    Unsupported { found: u32, supported: u32 },
}

/// What was found where the log should be.
#[derive(Debug)]
pub enum Manifest {
    /// The directory is a symlink.
    Symlinked { dir: String },
    /// There is no manifest.
    Absent,
    /// There is one that could not be opened.
    Unreadable { error: String },
    /// Its lines, and what each line's JSON decodes as.
    Read { lines: Lines, decoded: Vec<Result<WalRecord, String>> },
}

/// Whether `outcome` is what the span of `state` comes to.
pub open spec fn resolves(state: FoldState, outcome: ScanOutcome) -> bool {
    if state.load_id is None || !has_checkpoint(state.span) {
        outcome == ScanOutcome::Discard
    } else if !attribution_holds(state.span, state.schemas) {
        match outcome {
            ScanOutcome::Damaged(Damage::Coverage(fault)) => is_fault(
                state.span,
                state.schemas,
                fault,
            ),
            _ => false,
        }
    } else if state.max_committed == u64::MAX {
        outcome == ScanOutcome::Damaged(Damage::LastSequence { committed: state.max_committed })
    } else {
        match outcome {
            ScanOutcome::Recover(recovery) => {
                &&& Some(recovery.load_id) == state.load_id
                &&& recovery.next_commit_seq == state.max_committed + 1
                &&& recovery.records@ == survivors(
                    state.span,
                    state.schemas,
                    state.span.len() as int,
                )
                &&& lists_live(state.span, state.schemas, recovery.schemas@)
            },
            _ => false,
        }
    }
}

/// Whether `outcome` is what `records` come to.
pub open spec fn concludes(
    records: Seq<WalRecord>,
    pipeline: Seq<char>,
    sidecar: Sidecar,
    rules: IdentRules,
    outcome: ScanOutcome,
) -> bool {
    match fold(records, pipeline) {
        Err(FoldFault::Foreign { occupant }) => outcome == ScanOutcome::ForeignPipeline {
            occupant,
        },
        Err(FoldFault::Unsupported { found }) => outcome == ScanOutcome::Unsupported {
            found,
            supported: WAL_FORMAT_VERSION,
        },
        Err(FoldFault::SegmentName(fault)) => outcome == ScanOutcome::Damaged(
            Damage::SegmentName(fault),
        ),
        Err(FoldFault::Repeated { file }) => outcome == ScanOutcome::Damaged(
            Damage::Repeated { file },
        ),
        Ok(state) => match drift(sidecar, rules) {
            Some(fault) => outcome == ScanOutcome::Damaged(Damage::Sidecar(fault)),
            None => resolves(state, outcome),
        },
    }
}

/// Whether `outcome` is what scanning `manifest` finds.
pub open spec fn scans(
    manifest: Manifest,
    pipeline: Seq<char>,
    sidecar: Sidecar,
    rules: IdentRules,
    outcome: ScanOutcome,
) -> bool {
    match manifest {
        Manifest::Symlinked { dir } => outcome == ScanOutcome::Damaged(Damage::Symlinked { dir }),
        Manifest::Absent => outcome == ScanOutcome::Nothing,
        Manifest::Unreadable { error } => outcome == ScanOutcome::Damaged(
            Damage::Unreadable { error },
        ),
        Manifest::Read { lines, decoded } => match records_from(
            lines.lines@,
            lines.fault,
            decoded@,
            0,
            Seq::empty(),
        ) {
            Err(fault) => outcome == ScanOutcome::Damaged(Damage::Manifest(fault)),
            Ok(records) => concludes(records, pipeline, sidecar, rules, outcome),
        },
    }
}

/// Scans what is at the log's place for the pipeline `pipeline`, whose destination normalizes
/// identifiers under `rules`.
///
/// A torn last line is left out; damage anywhere else gives the span up for extracting the source
/// again, which is slower and never wrong. The rules are checked before any segment is attributed
/// to a stream, and after the headers, so that another version is told from damage.
pub fn scan(manifest: Manifest, pipeline: &String, sidecar: Sidecar, rules: IdentRules) -> (outcome:
    ScanOutcome)
    requires
        match manifest {
            Manifest::Read { lines, decoded } => decoded@.len() == lines.lines@.len(),
            _ => true,
        },
    ensures
        scans(manifest, pipeline@, sidecar, rules, outcome),
{
    let records: Vec<WalRecord> = match manifest {
        Manifest::Symlinked { dir } => {
            return ScanOutcome::Damaged(Damage::Symlinked { dir });
        },
        Manifest::Absent => {
            return ScanOutcome::Nothing;
        },
        Manifest::Unreadable { error } => {
            return ScanOutcome::Damaged(Damage::Unreadable { error });
        },
        Manifest::Read { lines, decoded } => match collect_records(lines, &decoded) {
            Ok(records) => records,
            Err(fault) => {
                return ScanOutcome::Damaged(Damage::Manifest(fault));
            },
        },
    };
    let folded: Folded = match fold_records(&records, pipeline) {
        Ok(folded) => folded,
        Err(FoldFault::Foreign { occupant }) => {
            return ScanOutcome::ForeignPipeline { occupant };
        },
        Err(FoldFault::Unsupported { found }) => {
            return ScanOutcome::Unsupported { found, supported: WAL_FORMAT_VERSION };
        },
        Err(FoldFault::SegmentName(fault)) => {
            return ScanOutcome::Damaged(Damage::SegmentName(fault));
        },
        Err(FoldFault::Repeated { file }) => {
            return ScanOutcome::Damaged(Damage::Repeated { file });
        },
    };
    match sidecar_drift(sidecar, rules) {
        Some(fault) => ScanOutcome::Damaged(Damage::Sidecar(fault)),
        None => resolve_span(folded, Ghost(fold(records@, pipeline@)->Ok_0)),
    }
}

/// What the folded span comes to.
fn resolve_span(folded: Folded, Ghost(state): Ghost<FoldState>) -> (outcome: ScanOutcome)
    requires
        folded.is(state),
    ensures
        resolves(state, outcome),
{
    let load_id: String = match folded.load_id {
        Some(load_id) => load_id,
        None => {
            return ScanOutcome::Discard;
        },
    };
    let span: Vec<WalRecord> = folded.span;
    let log: SchemaLog = folded.log;
    let coverage: Coverage = match filter_covered(&span, &log) {
        Ok(Some(coverage)) => coverage,
        Ok(None) => {
            return ScanOutcome::Discard;
        },
        Err(fault) => {
            return ScanOutcome::Damaged(Damage::Coverage(fault));
        },
    };
    if folded.max_committed == u64::MAX {
        return ScanOutcome::Damaged(Damage::LastSequence { committed: folded.max_committed });
    }
    let links: Vec<Link> = log.links();
    let live: Vec<bool> = log.live(&links, &coverage.written);
    proof {
        assert forall|p: int| 0 <= p < live@.len() implies #[trigger] live@[p] == live_at(
            span@,
            log@,
            p,
        ) by {
            lemma_live(span@, log@, coverage, p);
        }
    }
    let mut records: Vec<WalRecord> = Vec::new();
    let mut i: usize = 0;
    while i < span.len()
        invariant
            i <= span@.len(),
            log.wf(),
            live@.len() == log@.len(),
            coverage.covers(span@, log@),
            forall|p: int| 0 <= p < live@.len() ==> #[trigger] live@[p] == live_at(span@, log@, p),
            records@ == survivors(span@, log@, i as int),
        decreases span.len() - i,
    {
        let ghost had = records@;
        let kept: bool = coverage.keep[i];
        let survives: bool = match &span[i] {
            WalRecord::Delta { schema, .. } => match log.find(schema.table.as_str()) {
                Some(p) => kept && live[p],
                None => false,
            },
            _ => kept,
        };
        if survives {
            records.push(span[i].clone());
        }
        i = i + 1;
    }
    let schemas: Vec<SchemaEntry> = list_live(&log, &live, Ghost(span@));
    ScanOutcome::Recover(
        RecoverySpan { load_id, next_commit_seq: folded.max_committed + 1, records, schemas },
    )
}

proof fn lemma_live(span: Seq<WalRecord>, entries: Seq<SchemaEntry>, coverage: Coverage, p: int)
    requires
        coverage.covers(span, entries),
    ensures
        is_live(entries, coverage.written@, p) == live_at(span, entries, p),
{
    let written = coverage.written@;
    if is_live(entries, written, p) {
        let (w, hops) = choose|w: int, hops: nat|
            0 <= w < written.len() && #[trigger] ancestor(entries, written[w] as int, hops) == Some(
                p,
            );
        let i = choose|i: int|
            0 <= i < span.len() && #[trigger] holds_table(span, entries, i, written[w] as int);
        assert(holds_table(span, entries, i, written[w] as int) && ancestor(
            entries,
            written[w] as int,
            hops,
        ) == Some(p));
    }
    if live_at(span, entries, p) {
        let (i, table, hops) = choose|i: int, table: int, hops: nat|
            0 <= i < span.len() && #[trigger] holds_table(span, entries, i, table)
                && #[trigger] ancestor(entries, table, hops) == Some(p);
        let w = choose|w: int| 0 <= w < written.len() && #[trigger] written[w] == table;
        assert(ancestor(entries, written[w] as int, hops) == Some(p));
    }
}

/// The entries of the live tables of `log`, in the order of their names.
fn list_live(log: &SchemaLog, live: &Vec<bool>, Ghost(span): Ghost<Seq<WalRecord>>) -> (listed: Vec<
    SchemaEntry,
>)
    requires
        log.wf(),
        live@.len() == log@.len(),
        forall|p: int| 0 <= p < live@.len() ==> #[trigger] live@[p] == live_at(span, log@, p),
    ensures
        lists_live(span, log@, listed@),
{
    let n: usize = log.len();
    let mut names: Vec<String> = Vec::new();
    let mut places: Vec<usize> = Vec::new();
    let mut p: usize = 0;
    while p < n
        invariant
            p <= n,
            n == log@.len(),
            live@.len() == n,
            names@.len() == places@.len(),
            forall|k: int|
                0 <= k < places@.len() ==> (#[trigger] places@[k]) < p && live@[places@[k] as int]
                    && names@[k] == log@[places@[k] as int].schema.table,
            forall|k: int, l: int|
                0 <= k < l < places@.len() ==> #[trigger] places@[k] < #[trigger] places@[l],
            forall|q: int|
                0 <= q < p && #[trigger] live@[q] ==> places@.contains(q as usize),
        decreases n - p,
    {
        let ghost had = places@;
        if live[p] {
            names.push(log.get(p).schema.table.clone());
            places.push(p);
        }
        proof {
            assert forall|q: int| 0 <= q < p + 1 && #[trigger] live@[q] implies places@.contains(
                q as usize,
            ) by {
                if q < p {
                    let k = choose|k: int| 0 <= k < had.len() && had[k] == q as usize;
                    assert(places@[k] == q as usize);
                } else {
                    assert(places@[had.len() as int] == q as usize);
                }
            }
        }
        p = p + 1;
    }
    let order: Vec<usize> = order_of(&names);
    let mut listed: Vec<SchemaEntry> = Vec::new();
    let mut o: usize = 0;
    while o < order.len()
        invariant
            o <= order@.len(),
            n == log@.len(),
            live@.len() == n,
            names@.len() == places@.len(),
            orders(names@, order@, 0, names@.len() as int),
            forall|k: int|
                0 <= k < places@.len() ==> (#[trigger] places@[k]) < n && live@[places@[k] as int]
                    && names@[k] == log@[places@[k] as int].schema.table,
            listed@.len() == o,
            forall|q: int|
                0 <= q < o ==> #[trigger] listed@[q] == log@[places@[order@[q] as int] as int],
        decreases order.len() - o,
    {
        listed.push(log.get(places[order[o]]).clone());
        o = o + 1;
    }
    proof {
        log.lemma_distinct();
        lemma_lists_live(span, log@, live@, names@, places@, order@, listed@);
    }
    listed
}

proof fn lemma_lists_live(
    span: Seq<WalRecord>,
    entries: Seq<SchemaEntry>,
    live: Seq<bool>,
    names: Seq<String>,
    places: Seq<usize>,
    order: Seq<usize>,
    listed: Seq<SchemaEntry>,
)
    requires
        distinct(entries),
        entries.len() <= usize::MAX,
        names.len() <= usize::MAX,
        live.len() == entries.len(),
        forall|p: int| 0 <= p < live.len() ==> #[trigger] live[p] == live_at(span, entries, p),
        names.len() == places.len(),
        orders(names, order, 0, names.len() as int),
        forall|k: int|
            0 <= k < places.len() ==> (#[trigger] places[k]) < entries.len()
                && live[places[k] as int] && names[k] == entries[places[k] as int].schema.table,
        forall|k: int, l: int|
            0 <= k < l < places.len() ==> #[trigger] places[k] < #[trigger] places[l],
        forall|q: int| 0 <= q < live.len() && #[trigger] live[q] ==> places.contains(q as usize),
        listed.len() == order.len(),
        forall|q: int|
            0 <= q < listed.len() ==> #[trigger] listed[q] == entries[places[order[q] as int] as int],
    ensures
        lists_live(span, entries, listed),
{
    assert forall|q: int| 0 <= q < listed.len() implies is_live_entry(
        span,
        entries,
        #[trigger] listed[q],
    ) by {
        let k = order[q] as int;
        let p = places[k] as int;
        assert(live[p]);
        assert(live_at(span, entries, p) && entries[p] == listed[q]);
    }
    assert forall|p: int|
        0 <= p < entries.len() && #[trigger] live_at(span, entries, p) implies listed.contains(
        entries[p],
    ) by {
        assert(live[p]);
        let k = choose|k: int| 0 <= k < places.len() && places[k] == p as usize;
        assert(order.contains(k as usize));
        let q = choose|q: int| 0 <= q < order.len() && order[q] == k as usize;
        assert(listed[q] == entries[p]);
    }
    assert forall|q: int, r: int| 0 <= q < r < listed.len() implies name_before(
        table_of(#[trigger] listed[q]),
        table_of(#[trigger] listed[r]),
    ) by {
        let k = order[q] as int;
        let l = order[r] as int;
        assert(order[q] != order[r]);
        assert(places[k] != places[l]) by {
            if k < l {
                assert(places[k] < places[l]);
            } else {
                assert(places[l] < places[k]);
            }
        }
        let a = entries[places[k] as int];
        let b = entries[places[l] as int];
        assert(table_of(a) != table_of(b)) by {
            if places[k] < places[l] {
                assert(table_of(entries[places[k] as int]) != table_of(entries[places[l] as int]));
            } else {
                assert(table_of(entries[places[l] as int]) != table_of(entries[places[k] as int]));
            }
        }
        assert(names[k]@ == table_of(a) && names[l]@ == table_of(b));
        lemma_name_ordered_strict(table_of(a), table_of(b));
    }
}

proof fn lemma_survivor(span: Seq<WalRecord>, entries: Seq<SchemaEntry>, n: int, k: int) -> (i: int)
    requires
        0 <= n <= span.len(),
        0 <= k < survivors(span, entries, n).len(),
    ensures
        0 <= i < n,
        survives(span, entries, i),
        survivors(span, entries, n)[k] == span[i],
    decreases n,
{
    if survives(span, entries, n - 1) && k == survivors(span, entries, n - 1).len() {
        n - 1
    } else {
        lemma_survivor(span, entries, n - 1, k)
    }
}

/// A log that another pipeline's header heads is that pipeline's, whatever the header's version
/// and whatever follows it.
pub proof fn law_foreign_logs_are_left_alone(
    records: Seq<WalRecord>,
    pipeline: Seq<char>,
    n: int,
    sidecar: Sidecar,
    rules: IdentRules,
    outcome: ScanOutcome,
)
    requires
        0 <= n < records.len(),
        fold(records.take(n), pipeline) is Ok,
        records[n] is Run,
        records[n]->pipeline@ != pipeline,
        concludes(records, pipeline, sidecar, rules, outcome),
    ensures
        outcome == (ScanOutcome::ForeignPipeline { occupant: records[n]->pipeline }),
{
    assert(records.take(n + 1).drop_last() =~= records.take(n));
    assert(records.take(n + 1).last() == records[n]);
    lemma_fault_stays(records, pipeline, n + 1);
}

/// Every segment that is replayed was kept: a checkpoint of a stream it belongs to follows it in
/// the span.
pub proof fn law_replayed_segments_are_covered(state: FoldState, outcome: ScanOutcome, k: int)
    requires
        resolves(state, outcome),
        outcome is Recover,
        0 <= k < outcome->Recover_0.records@.len(),
        outcome->Recover_0.records@[k] is Segment,
    ensures
        exists|i: int, stream: Seq<char>, at: int|
            0 <= i < at < state.span.len() && state.span[i] == outcome->Recover_0.records@[k]
                && #[trigger] checkpoints(state.span[at], stream) && #[trigger] belongs_to(
                state.span,
                state.schemas,
                i,
                stream,
            ),
{
    let i = lemma_survivor(state.span, state.schemas, state.span.len() as int, k);
    law_kept_segments_are_covered(state.span, state.schemas, i);
    let (stream, at) = choose|stream: Seq<char>, at: int|
        i < at < state.span.len() && #[trigger] checkpoints(state.span[at], stream)
            && #[trigger] belongs_to(state.span, state.schemas, i, stream);
    assert(0 <= i < at < state.span.len() && checkpoints(state.span[at], stream) && belongs_to(
        state.span,
        state.schemas,
        i,
        stream,
    ));
}

/// Replay touches only what it writes: every schema it ensures, in the span or beside it, is of
/// a table a replayed segment holds or an ancestor of one.
pub proof fn law_only_live_tables_are_ensured(state: FoldState, outcome: ScanOutcome)
    requires
        resolves(state, outcome),
        outcome is Recover,
    ensures
        forall|k: int|
            0 <= k < outcome->Recover_0.records@.len() && (
            #[trigger] outcome->Recover_0.records@[k]) is Delta ==> live_at(
                state.span,
                state.schemas,
                position(state.schemas, outcome->Recover_0.records@[k]->schema.table@),
            ),
        forall|q: int|
            0 <= q < outcome->Recover_0.schemas@.len() ==> is_live_entry(
                state.span,
                state.schemas,
                #[trigger] outcome->Recover_0.schemas@[q],
            ),
{
    assert forall|k: int|
        0 <= k < outcome->Recover_0.records@.len() && (
        #[trigger] outcome->Recover_0.records@[k]) is Delta implies live_at(
        state.span,
        state.schemas,
        position(state.schemas, outcome->Recover_0.records@[k]->schema.table@),
    ) by {
        let i = lemma_survivor(state.span, state.schemas, state.span.len() as int, k);
        assert(survives(state.span, state.schemas, i));
    }
}

/// A run's header begins a fresh span: nothing before it is replayed.
pub proof fn law_a_header_begins_a_fresh_span(
    records: Seq<WalRecord>,
    pipeline: Seq<char>,
    header: WalRecord,
)
    requires
        header is Run,
        fold(records.push(header), pipeline) is Ok,
    ensures
        ({
            let state = fold(records.push(header), pipeline)->Ok_0;
            state.span.len() == 0 && state.max_committed == 0 && state.load_id == Some(
                header->load_id,
            )
        }),
{
    assert(records.push(header).drop_last() =~= records);
}

/// What the destination holds is never replayed: behind a commit there is nothing to recover.
pub proof fn law_a_committed_span_is_not_replayed(
    records: Seq<WalRecord>,
    pipeline: Seq<char>,
    commit_seq: u64,
    outcome: ScanOutcome,
)
    requires
        fold(records.push(WalRecord::Committed { commit_seq }), pipeline) is Ok,
        resolves(
            fold(records.push(WalRecord::Committed { commit_seq }), pipeline)->Ok_0,
            outcome,
        ),
    ensures
        outcome == ScanOutcome::Discard,
{
    assert(records.push(WalRecord::Committed { commit_seq }).drop_last() =~= records);
}

/// Whether `i` is a commit of the last run among `records`: no header follows it.
pub open spec fn commits_last_run(records: Seq<WalRecord>, i: int) -> bool {
    &&& 0 <= i < records.len()
    &&& records[i] is Committed
    &&& forall|k: int| i < k < records.len() ==> !((#[trigger] records[k]) is Run)
}

/// The sequence a recovery commits under is above every one its run committed.
pub proof fn law_recovery_commits_a_new_sequence(
    records: Seq<WalRecord>,
    pipeline: Seq<char>,
    outcome: ScanOutcome,
    i: int,
)
    requires
        fold(records, pipeline) is Ok,
        resolves(fold(records, pipeline)->Ok_0, outcome),
        outcome is Recover,
        commits_last_run(records, i),
    ensures
        outcome->Recover_0.next_commit_seq > records[i]->commit_seq,
{
    lemma_max_committed(records, pipeline, i);
}

proof fn lemma_max_committed(records: Seq<WalRecord>, pipeline: Seq<char>, i: int)
    requires
        fold(records, pipeline) is Ok,
        commits_last_run(records, i),
    ensures
        fold(records, pipeline)->Ok_0.max_committed >= records[i]->commit_seq,
    decreases records.len(),
{
    if i < records.len() - 1 {
        let before = records.drop_last();
        assert(!(records.last() is Run));
        assert(commits_last_run(before, i)) by {
            assert forall|k: int| i < k < before.len() implies !((#[trigger] before[k]) is Run) by {
                assert(before[k] == records[k]);
            }
        }
        lemma_max_committed(before, pipeline, i);
        assert(before[i] == records[i]);
    }
}

/// A live table's recorded parent is live too: a child's rows never arrive before their table's
/// ancestors are ensured.
pub proof fn law_ancestors_of_live_tables_are_live(
    span: Seq<WalRecord>,
    entries: Seq<SchemaEntry>,
    p: int,
)
    requires
        0 <= p < entries.len(),
        live_at(span, entries, p),
        entries[p].schema.parent is Some,
        describes(entries, entries[p].schema.parent->0@),
    ensures
        live_at(span, entries, position(entries, entries[p].schema.parent->0@)),
{
    let (i, table, hops) = choose|i: int, table: int, hops: nat|
        0 <= i < span.len() && #[trigger] holds_table(span, entries, i, table)
            && #[trigger] ancestor(entries, table, hops) == Some(p);
    let parent = position(entries, entries[p].schema.parent->0@);
    assert(ancestor(entries, parent, 0) == Some(parent));
    assert(ancestor(entries, p, 1) == Some(parent));
    lemma_ancestor_adds(entries, table, hops, 1);
    assert(holds_table(span, entries, i, table) && ancestor(entries, table, hops + 1) == Some(
        parent,
    ));
}

} // verus!
