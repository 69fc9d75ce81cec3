//! The log's manifest, from its lines to what a scan makes of it.

use rdlt_engine::wal::coverage::filter_covered;
use rdlt_engine::wal::lineage::{Ancestry, SchemaEntry, SchemaLog};
use rdlt_engine::wal::lines::{
    collect_records, read_lines, read_manifest_line, Lines, ManifestFault, MAX_MANIFEST_TOTAL_BYTES,
};
use rdlt_engine::wal::record::{
    decode_line, encode_line, initial_wal_version, json_len, segment_file_name,
    verify_segment_file, Corruption, ManifestLine, NameFault, RecordedSchema, WalRecord,
    MAX_MANIFEST_LINE_BYTES, WAL_FORMAT_VERSION,
};
use rdlt_engine::wal::scan::{scan, Damage, Manifest, RecoverySpan, ScanOutcome};
use rdlt_engine::wal::sidecar::{
    rules_sidecar, sidecar_drift, IdentRules, Sidecar, SidecarFault,
};
use serde_json::Value;

/// The root table of a stream or table named `name`: this destination lower-cases names.
fn normalized(name: &str) -> String {
    name.to_lowercase()
}

fn text(value: &str) -> Value {
    Value::String(value.to_owned())
}

fn to_json(record: &WalRecord) -> Vec<u8> {
    let mut object = serde_json::Map::new();
    match record {
        WalRecord::Run { format_version, load_id, pipeline } => {
            object.insert("rec".to_owned(), text("run"));
            object.insert("format_version".to_owned(), Value::from(*format_version));
            object.insert("load_id".to_owned(), text(load_id));
            object.insert("pipeline".to_owned(), text(pipeline));
        }
        WalRecord::Delta { schema, delta, mode } => {
            object.insert("rec".to_owned(), text("delta"));
            object.insert("table".to_owned(), text(&schema.table));
            if let Some(parent) = &schema.parent {
                object.insert("parent".to_owned(), text(parent));
            }
            object.insert("body".to_owned(), text(&schema.body));
            object.insert("delta".to_owned(), text(delta));
            object.insert("mode".to_owned(), text(mode));
        }
        WalRecord::Segment { table, file, rows } => {
            object.insert("rec".to_owned(), text("segment"));
            object.insert("table".to_owned(), text(table));
            object.insert("file".to_owned(), text(file));
            object.insert("rows".to_owned(), Value::from(*rows));
        }
        WalRecord::Checkpoint { stream, cursor, .. } => {
            object.insert("rec".to_owned(), text("checkpoint"));
            object.insert("stream".to_owned(), text(stream));
            object.insert("cursor".to_owned(), text(cursor));
        }
        WalRecord::Committed { commit_seq } => {
            object.insert("rec".to_owned(), text("committed"));
            object.insert("commit_seq".to_owned(), Value::from(*commit_seq));
        }
    }
    serde_json::to_vec(&Value::Object(object)).expect("records serialize")
}

fn from_json(json: &[u8]) -> Result<WalRecord, String> {
    let value: Value = serde_json::from_slice(json).map_err(|error| error.to_string())?;
    let string = |key: &str| -> Result<String, String> {
        value
            .get(key)
            .and_then(Value::as_str)
            .map(str::to_owned)
            .ok_or_else(|| format!("missing field `{key}`"))
    };
    let number = |key: &str| -> Result<u64, String> {
        value
            .get(key)
            .and_then(Value::as_u64)
            .ok_or_else(|| format!("missing field `{key}`"))
    };
    match string("rec")?.as_str() {
        "run" => Ok(WalRecord::Run {
            format_version: u32::try_from(number("format_version")?)
                .map_err(|error| error.to_string())?,
            load_id: string("load_id")?,
            pipeline: string("pipeline")?,
        }),
        "delta" => {
            let table = string("table")?;
            Ok(WalRecord::Delta {
                schema: RecordedSchema {
                    root: normalized(&table),
                    table,
                    parent: string("parent").ok(),
                    body: string("body")?,
                },
                delta: string("delta")?,
                mode: string("mode")?,
            })
        }
        "segment" => Ok(WalRecord::Segment {
            table: string("table")?,
            file: string("file")?,
            rows: number("rows")?,
        }),
        "checkpoint" => {
            let stream = string("stream")?;
            let cursor = value.get("cursor").ok_or("missing field `cursor`")?;
            Ok(WalRecord::Checkpoint {
                root: normalized(&stream),
                stream,
                cursor: cursor.as_str().map_or_else(|| cursor.to_string(), str::to_owned),
            })
        }
        "committed" => Ok(WalRecord::Committed { commit_seq: number("commit_seq")? }),
        other => Err(format!("unknown record `{other}`")),
    }
}

fn run_header(load: &str) -> WalRecord {
    run(WAL_FORMAT_VERSION, load, "p")
}

fn run(format_version: u32, load: &str, pipeline: &str) -> WalRecord {
    WalRecord::Run {
        format_version,
        load_id: load.to_owned(),
        pipeline: pipeline.to_owned(),
    }
}

fn delta(table: &str, parent: Option<&str>) -> WalRecord {
    delta_with_mode(table, parent, "append")
}

fn delta_with_mode(table: &str, parent: Option<&str>, mode: &str) -> WalRecord {
    WalRecord::Delta {
        schema: RecordedSchema {
            table: table.to_owned(),
            parent: parent.map(str::to_owned),
            root: normalized(table),
            body: "[]".to_owned(),
        },
        delta: "[]".to_owned(),
        mode: mode.to_owned(),
    }
}

fn segment(table: &str, file: &str) -> WalRecord {
    segment_of(table, file, 2)
}

fn segment_of(table: &str, file: &str, rows: u64) -> WalRecord {
    WalRecord::Segment { table: table.to_owned(), file: file.to_owned(), rows }
}

fn checkpoint(stream: &str) -> WalRecord {
    checkpoint_at(stream, "2")
}

fn checkpoint_at(stream: &str, cursor: &str) -> WalRecord {
    WalRecord::Checkpoint {
        stream: stream.to_owned(),
        root: normalized(stream),
        cursor: cursor.to_owned(),
    }
}

/// `records` as the writer's own lines.
fn manifest(records: &[WalRecord]) -> Vec<u8> {
    let mut bytes = Vec::new();
    for record in records {
        bytes.extend(encode_line(to_json(record)));
        bytes.push(b'\n');
    }
    bytes
}

fn rules(max_len: u64) -> IdentRules {
    IdentRules { max_len }
}

fn recorded(max_len: u64) -> Sidecar {
    Sidecar::Recorded { rules: rules(max_len), valid: max_len >= 16 }
}

/// What each line's JSON decodes as.
fn decoded(lines: &Lines) -> Vec<Result<WalRecord, String>> {
    lines
        .lines
        .iter()
        .map(|line| {
            let bytes = line.text.as_bytes();
            from_json(&bytes[..json_len(bytes)])
        })
        .collect()
}

fn scan_manifest(bytes: &[u8], pipeline: &str, sidecar: Sidecar, reader: IdentRules) -> ScanOutcome {
    let lines = read_lines(bytes, MAX_MANIFEST_TOTAL_BYTES, None);
    let decoded = decoded(&lines);
    scan(Manifest::Read { lines, decoded }, &pipeline.to_owned(), sidecar, reader)
}

/// Scans `bytes` under the rules they were written under, for pipeline `p`.
fn scan_bytes(bytes: &[u8]) -> ScanOutcome {
    scan_manifest(bytes, "p", recorded(63), rules(63))
}

/// Scans a current header of load `l` and `records`.
fn scan_span(records: Vec<WalRecord>) -> ScanOutcome {
    let mut all = vec![run_header("l")];
    all.extend(records);
    scan_bytes(&manifest(&all))
}

fn recovered(outcome: ScanOutcome) -> RecoverySpan {
    match outcome {
        ScanOutcome::Recover(span) => span,
        ScanOutcome::Damaged(damage) => panic!("expected a span, got {}", damage.message()),
        _ => panic!("expected a span"),
    }
}

fn damage(outcome: ScanOutcome) -> String {
    match outcome {
        ScanOutcome::Damaged(damage) => damage.message(),
        _ => panic!("expected damage"),
    }
}

/// The segment files a span replays, in its order.
fn replayed_files(records: &[WalRecord]) -> Vec<String> {
    records
        .iter()
        .filter_map(|record| match record {
            WalRecord::Segment { file, .. } => Some(file.clone()),
            _ => None,
        })
        .collect()
}

/// The tables a span's replay ensures.
fn ensured_tables(span: &RecoverySpan) -> Vec<String> {
    let mut tables: Vec<String> = span
        .schemas
        .iter()
        .map(|entry| entry.schema.table.clone())
        .chain(span.records.iter().filter_map(|record| match record {
            WalRecord::Delta { schema, .. } => Some(schema.table.clone()),
            _ => None,
        }))
        .collect();
    tables.sort();
    tables.dedup();
    tables
}

fn has_checkpoint(records: &[WalRecord], of: &str) -> bool {
    records
        .iter()
        .any(|record| matches!(record, WalRecord::Checkpoint { stream, .. } if stream == of))
}

/// What is kept of the records after the last commit, and the tables replay then ensures; `None`
/// where nothing is to be replayed.
fn covered(records: Vec<WalRecord>) -> Result<Option<(Vec<WalRecord>, Vec<String>)>, String> {
    let mut log = SchemaLog::new();
    let mut span = Vec::new();
    for record in records {
        if let WalRecord::Delta { schema, mode, .. } = &record {
            log.record(SchemaEntry { schema: schema.clone(), mode: mode.clone() });
        }
        if let WalRecord::Committed { .. } = record {
            span.clear();
        } else {
            span.push(record);
        }
    }
    let coverage = match filter_covered(&span, &log) {
        Ok(Some(coverage)) => coverage,
        Ok(None) => return Ok(None),
        Err(fault) => return Err(fault.message()),
    };
    let links = log.links();
    let live = log.live(&links, &coverage.written);
    let mut tables: Vec<String> = (0..log.len())
        .filter(|at| live[*at])
        .map(|at| log.get(at).schema.table.clone())
        .collect();
    tables.sort();
    let kept = span
        .into_iter()
        .zip(coverage.keep)
        .filter_map(|(record, keep)| keep.then_some(record))
        .collect();
    Ok(Some((kept, tables)))
}

/// A replayable one-stream span under a current header.
fn healthy_manifest() -> Vec<u8> {
    manifest(&[
        run_header("l"),
        delta("orders", None),
        segment("orders", "l-000000.arrow"),
        checkpoint_at("orders", "41"),
    ])
}

fn as_text(bytes: Vec<u8>) -> String {
    String::from_utf8(bytes).expect("manifests are text")
}

#[test]
fn scan_tests_an_uncovered_co_stream_segment_is_dropped_not_replayed() {
    let records = vec![
        delta("events", None),
        delta("orders", None),
        segment("events", "l-000000.arrow"),
        segment("orders", "l-000001.arrow"),
        checkpoint("orders"),
    ];
    let span = recovered(scan_span(records));
    let kept = &span.records;
    assert_eq!(replayed_files(kept), ["l-000001.arrow"]);
    assert!(has_checkpoint(kept, "orders"));
}

#[test]
fn scan_an_uncovered_co_stream_segment_is_dropped_not_replayed() {
    let records = vec![
        delta("events", None),
        delta("orders", None),
        segment("events", "f0.arrow"),
        segment("orders", "f1.arrow"),
        checkpoint("orders"),
    ];
    let (kept, _tables) = covered(records).expect("the span covers").expect("a span");
    let kept = &kept;
    assert_eq!(replayed_files(kept), ["f1.arrow"]);
    assert!(has_checkpoint(kept, "orders"));
}

#[test]
fn scan_tests_a_segment_after_its_own_streams_last_checkpoint_stays_dropped() {
    let records = vec![
        delta("events", None),
        segment("events", "l-000000.arrow"),
        checkpoint("events"),
        segment("events", "l-000001.arrow"),
    ];
    let span = recovered(scan_span(records));
    let kept = &span.records;
    assert_eq!(replayed_files(kept), ["l-000000.arrow"]);
}

#[test]
fn scan_a_segment_after_its_own_streams_last_checkpoint_stays_dropped() {
    let records = vec![
        delta("events", None),
        segment("events", "f0.arrow"),
        checkpoint("events"),
        segment("events", "f1.arrow"),
    ];
    let (kept, _tables) = covered(records).expect("the span covers").expect("a span");
    let kept = &kept;
    assert_eq!(replayed_files(kept), ["f0.arrow"]);
}

#[test]
fn scan_tests_interleaved_streams_each_replay_exactly_their_covered_prefix() {
    let records = vec![
        delta("events", None),
        delta("orders", None),
        segment("events", "l-000000.arrow"),
        segment("orders", "l-000001.arrow"),
        checkpoint("events"),
        segment("events", "l-000002.arrow"),
        checkpoint("orders"),
    ];
    let span = recovered(scan_span(records));
    let kept = &span.records;
    assert_eq!(replayed_files(kept), ["l-000000.arrow", "l-000001.arrow"]);
}

#[test]
fn scan_interleaved_streams_each_replay_exactly_their_covered_prefix() {
    let records = vec![
        delta("events", None),
        delta("orders", None),
        segment("events", "f0.arrow"),
        segment("orders", "f1.arrow"),
        checkpoint("events"),
        segment("events", "f2.arrow"),
        checkpoint("orders"),
    ];
    let (kept, _tables) = covered(records).expect("the span covers").expect("a span");
    let kept = &kept;
    assert_eq!(replayed_files(kept), ["f0.arrow", "f1.arrow"]);
}

#[test]
fn scan_tests_attribution_follows_the_recorded_parent_link_not_name_prefixes() {
    let records = vec![
        delta("orders", None),
        delta("itm_4f2a9c1b", Some("orders")),
        segment("itm_4f2a9c1b", "l-000000.arrow"),
        checkpoint("orders"),
    ];
    let span = recovered(scan_span(records));
    let kept = &span.records;
    assert_eq!(replayed_files(kept), ["l-000000.arrow"]);
}

#[test]
fn scan_attribution_follows_the_recorded_parent_link_not_name_prefixes() {
    let records = vec![
        delta("orders", None),
        delta("itm_4f2a9c1b", Some("orders")),
        segment("itm_4f2a9c1b", "f0.arrow"),
        checkpoint("orders"),
    ];
    let (kept, _tables) = covered(records).expect("the span covers").expect("a span");
    let kept = &kept;
    assert_eq!(replayed_files(kept), ["f0.arrow"]);
}

#[test]
fn scan_tests_a_checkpoint_only_span_still_recovers_the_cursor() {
    let records = vec![
        delta("orders", None),
        checkpoint("orders"),
    ];
    let span = recovered(scan_span(records));
    let kept = &span.records;
    assert!(replayed_files(kept).is_empty());
}

#[test]
fn scan_a_checkpoint_only_span_still_recovers_the_cursor() {
    let records = vec![
        delta("orders", None),
        checkpoint("orders"),
    ];
    let (kept, _tables) = covered(records).expect("the span covers").expect("a span");
    let kept = &kept;
    assert!(replayed_files(kept).is_empty());
}

#[test]
fn scan_tests_a_segment_with_no_recorded_schema_degrades_to_re_extraction() {
    let records = vec![
        delta("orders", None),
        segment("orders", "l-000000.arrow"),
        segment("ghost", "l-000001.arrow"),
        checkpoint("orders"),
    ];
    let reason = damage(scan_span(records));
    assert!(reason.contains("ghost"), "{reason}");
}

#[test]
fn scan_a_segment_with_no_recorded_schema_degrades_to_re_extraction() {
    let records = vec![
        delta("orders", None),
        segment("orders", "f0.arrow"),
        segment("ghost", "f1.arrow"),
        checkpoint("orders"),
    ];
    let reason = covered(records).expect_err("the span degrades");
    assert!(reason.contains("ghost"), "{reason}");
}

#[test]
fn scan_tests_an_idle_checkpoint_beside_snapshot_orphans_recovers_when_its_root_is_recorded() {
    let records = vec![
        delta("orders", None),
        segment("orders", "l-000000.arrow"),
        checkpoint("orders"),
        WalRecord::Committed { commit_seq: 1 },
        delta("events", None),
        segment("events", "l-000001.arrow"),
        checkpoint("orders"),
    ];
    let span = recovered(scan_span(records));
    let kept = &span.records;
    assert!(replayed_files(kept).is_empty());
    assert!(has_checkpoint(kept, "orders"));
    assert_eq!(span.next_commit_seq, 2);
}

#[test]
fn scan_an_idle_checkpoint_beside_snapshot_orphans_recovers_when_its_root_is_recorded() {
    let records = vec![
        delta("orders", None),
        segment("orders", "f0.arrow"),
        checkpoint("orders"),
        WalRecord::Committed { commit_seq: 1 },
        delta("events", None),
        segment("events", "f1.arrow"),
        checkpoint("orders"),
    ];
    let (kept, _tables) = covered(records).expect("the span covers").expect("a span");
    let kept = &kept;
    assert!(replayed_files(kept).is_empty());
    assert!(has_checkpoint(kept, "orders"));
}

#[test]
fn scan_tests_a_table_with_no_surviving_segments_is_not_ensured_by_replay() {
    let records = vec![
        delta("orders", None),
        segment("orders", "l-000000.arrow"),
        checkpoint("orders"),
        WalRecord::Committed { commit_seq: 1 },
        delta_with_mode("events", None, "replace"),
        segment("events", "l-000001.arrow"),
        checkpoint("orders"),
    ];
    let span = recovered(scan_span(records));
    let kept = &span.records;
    assert!(replayed_files(kept).is_empty());
    assert!(has_checkpoint(kept, "orders"));
    assert!(ensured_tables(&span).is_empty());
}

#[test]
fn scan_a_table_with_no_surviving_segments_is_not_ensured_by_replay() {
    let records = vec![
        delta("orders", None),
        segment("orders", "f0.arrow"),
        checkpoint("orders"),
        WalRecord::Committed { commit_seq: 1 },
        delta_with_mode("events", None, "replace"),
        segment("events", "f1.arrow"),
        checkpoint("orders"),
    ];
    let (kept, tables) = covered(records).expect("the span covers").expect("a span");
    let kept = &kept;
    assert!(replayed_files(kept).is_empty());
    assert!(has_checkpoint(kept, "orders"));
    assert!(tables.is_empty());
}

#[test]
fn scan_tests_only_tables_with_surviving_segments_are_ensured() {
    let records = vec![
        delta("events", None),
        delta("orders", None),
        segment("events", "l-000000.arrow"),
        segment("orders", "l-000001.arrow"),
        checkpoint("orders"),
    ];
    let span = recovered(scan_span(records));
    let kept = &span.records;
    assert_eq!(replayed_files(kept), ["l-000001.arrow"]);
    assert_eq!(ensured_tables(&span), ["orders"]);
}

#[test]
fn scan_only_tables_with_surviving_segments_are_ensured() {
    let records = vec![
        delta("events", None),
        delta("orders", None),
        segment("events", "f0.arrow"),
        segment("orders", "f1.arrow"),
        checkpoint("orders"),
    ];
    let (kept, tables) = covered(records).expect("the span covers").expect("a span");
    let kept = &kept;
    assert_eq!(replayed_files(kept), ["f1.arrow"]);
    assert_eq!(tables, ["orders"]);
}

#[test]
fn scan_tests_a_surviving_child_segment_keeps_its_ancestor_chain_ensured() {
    let records = vec![
        delta("orders", None),
        delta("itm_4f2a9c1b", Some("orders")),
        segment("itm_4f2a9c1b", "l-000000.arrow"),
        checkpoint("orders"),
    ];
    let span = recovered(scan_span(records));
    let kept = &span.records;
    assert_eq!(replayed_files(kept), ["l-000000.arrow"]);
    assert_eq!(ensured_tables(&span), ["itm_4f2a9c1b", "orders"]);
}

#[test]
fn scan_a_surviving_child_segment_keeps_its_ancestor_chain_ensured() {
    let records = vec![
        delta("orders", None),
        delta("itm_4f2a9c1b", Some("orders")),
        segment("itm_4f2a9c1b", "f0.arrow"),
        checkpoint("orders"),
    ];
    let (kept, tables) = covered(records).expect("the span covers").expect("a span");
    let kept = &kept;
    assert_eq!(replayed_files(kept), ["f0.arrow"]);
    assert_eq!(tables, ["itm_4f2a9c1b", "orders"]);
}

#[test]
fn scan_tests_an_orphan_segment_beside_an_idle_streams_checkpoint_recovers() {
    let records = vec![
        delta("events", None),
        segment("events", "l-000000.arrow"),
        checkpoint("orders"),
    ];
    let span = recovered(scan_span(records));
    let kept = &span.records;
    assert!(replayed_files(kept).is_empty());
    assert!(has_checkpoint(kept, "orders"));
}

#[test]
fn scan_an_orphan_segment_beside_an_idle_streams_checkpoint_recovers() {
    let records = vec![
        delta("events", None),
        segment("events", "f0.arrow"),
        checkpoint("orders"),
    ];
    let (kept, _tables) = covered(records).expect("the span covers").expect("a span");
    let kept = &kept;
    assert!(replayed_files(kept).is_empty());
    assert!(has_checkpoint(kept, "orders"));
}

#[test]
fn scan_tests_a_productive_streams_span_survives_an_idle_co_stream_and_snapshot_orphans() {
    let records = vec![
        delta("a_events", None),
        segment("a_events", "l-000000.arrow"),
        delta("c_snap", None),
        segment("c_snap", "l-000001.arrow"),
        checkpoint("a_events"),
        checkpoint("b_idle"),
    ];
    let span = recovered(scan_span(records));
    let kept = &span.records;
    assert_eq!(replayed_files(kept), ["l-000000.arrow"]);
    assert_eq!(ensured_tables(&span), ["a_events"]);
}

#[test]
fn scan_a_productive_streams_span_survives_an_idle_co_stream_and_snapshot_orphans() {
    let records = vec![
        delta("a_events", None),
        segment("a_events", "f0.arrow"),
        delta("c_snap", None),
        segment("c_snap", "f1.arrow"),
        checkpoint("a_events"),
        checkpoint("b_idle"),
    ];
    let (kept, tables) = covered(records).expect("the span covers").expect("a span");
    let kept = &kept;
    assert_eq!(replayed_files(kept), ["f0.arrow"]);
    assert_eq!(tables, ["a_events"]);
}

#[test]
fn scan_tests_two_recorded_roots_collapsing_onto_one_checkpointed_root_degrade() {
    let records = vec![
        delta("EVENTS", None),
        delta("events", None),
        segment("EVENTS", "l-000000.arrow"),
        segment("events", "l-000001.arrow"),
        checkpoint("EVENTS"),
    ];
    let reason = damage(scan_span(records));
    assert!(reason.contains("many-to-one"), "{reason}");
}

#[test]
fn scan_two_recorded_roots_collapsing_onto_one_checkpointed_root_degrade() {
    let records = vec![
        delta("EVENTS", None),
        delta("events", None),
        segment("EVENTS", "f0.arrow"),
        segment("events", "f1.arrow"),
        checkpoint("EVENTS"),
    ];
    let reason = covered(records).expect_err("the span degrades");
    assert!(reason.contains("many-to-one"), "{reason}");
}

#[test]
fn a_span_with_several_faults_is_refused_for_the_first() {
    let unknown = segment("unknown", "l-000000.arrow");
    let streams = ["b", "B", "a", "A"].map(checkpoint);
    for turn in 0..4 {
        let mut records = vec![unknown.clone()];
        records.extend(streams.iter().cycle().skip(turn).take(4).cloned());
        let fault = covered(records).expect_err("two roots have two streams each");
        assert!(fault.contains("one root table `a`"), "{fault}");
    }
    let fault = covered(vec![unknown, checkpoint("a")]).expect_err("the table is not recorded");
    assert!(fault.contains("`unknown` has no schema delta"), "{fault}");
}

#[test]
fn scan_tests_two_streams_normalizing_to_one_root_degrade() {
    let records = vec![
        delta("orders", None),
        segment("orders", "l-000000.arrow"),
        checkpoint("Orders"),
        checkpoint("orders"),
    ];
    let reason = damage(scan_span(records));
    assert!(!reason.is_empty());
}

#[test]
fn scan_two_streams_normalizing_to_one_root_degrade() {
    let records = vec![
        delta("orders", None),
        segment("orders", "f0.arrow"),
        checkpoint("Orders"),
        checkpoint("orders"),
    ];
    let reason = covered(records).expect_err("the span degrades");
    assert!(!reason.is_empty());
}

#[test]
fn deep_chain_resolution_stays_linear_across_the_scan_folds() {
    const K: usize = 100_000;
    let mut log = SchemaLog::new();
    for i in 0..=K {
        let table = format!("t{i}");
        log.record(SchemaEntry {
            schema: RecordedSchema {
                root: table.clone(),
                table,
                parent: (i > 0).then(|| format!("t{}", i - 1)),
                body: "[]".to_owned(),
            },
            mode: "append".to_owned(),
        });
    }
    let links = log.links();
    let ancestries = log.ancestries(&links);
    assert_eq!(ancestries.len(), K + 1);
    for ancestry in &ancestries {
        assert!(matches!(ancestry, Some(Ancestry::Root(0))));
    }
    let live = log.live(&links, &(0..=K).collect::<Vec<usize>>());
    assert_eq!(live.iter().filter(|live| **live).count(), K + 1, "every chained table is live");
}

#[test]
fn a_deep_chained_manifest_recovers_with_full_coverage() {
    const K: usize = 2_000;
    let mut records = Vec::new();
    for i in 0..=K {
        let parent = (i > 0).then(|| format!("t{}", i - 1));
        records.push(delta(&format!("t{i}"), parent.as_deref()));
        records.push(segment(&format!("t{i}"), &format!("l-{i:06}.arrow")));
    }
    records.push(checkpoint("t0"));
    let span = recovered(scan_span(records));
    assert_eq!(replayed_files(&span.records).len(), K + 1);
}

#[test]
fn the_line_cap_admits_a_maximal_cursor_line() {
    let line = encode_line(to_json(&checkpoint_at("s", &"x".repeat(4 * 1024 * 1024))));
    assert!(line.len() <= MAX_MANIFEST_LINE_BYTES, "{}", line.len());
}

#[test]
fn the_line_cap_admits_the_writers_own_maximal_delta_line() {
    let columns: Vec<Value> = (0..4_096)
        .map(|i| {
            let mut column = serde_json::Map::new();
            column.insert("name".to_owned(), Value::String(format!("{:a>59}{i:04}", "")));
            column.insert("column_type".to_owned(), text("json"));
            column.insert("nullable".to_owned(), Value::Bool(true));
            column.insert("provenance".to_owned(), text("inferred"));
            Value::Object(column)
        })
        .collect();
    let table = format!("{:t>63}", "");
    let mut schema = serde_json::Map::new();
    schema.insert("table".to_owned(), text(&table));
    schema.insert("columns".to_owned(), Value::Array(columns));
    let mut create = serde_json::Map::new();
    create.insert("schema".to_owned(), Value::Object(schema.clone()));
    let mut change = serde_json::Map::new();
    change.insert("create_table".to_owned(), Value::Object(create));
    let mut record = serde_json::Map::new();
    record.insert("rec".to_owned(), text("delta"));
    record.insert("schema".to_owned(), Value::Object(schema));
    record.insert("delta".to_owned(), Value::Object(change));
    record.insert("mode".to_owned(), text("append"));
    let line = encode_line(serde_json::to_vec(&Value::Object(record)).expect("encode"));
    assert!(line.len() <= MAX_MANIFEST_LINE_BYTES, "{}", line.len());
}

#[test]
fn the_line_cap_counts_content_not_the_terminator() {
    let mut at_cap = vec![b'x'; MAX_MANIFEST_LINE_BYTES];
    at_cap.push(b'\n');
    let (line, next) = read_manifest_line(&at_cap, 0);
    let Ok(Some(line)) = line else { panic!("a line at exactly the cap scans") };
    assert_eq!(line.text.len(), MAX_MANIFEST_LINE_BYTES);
    assert_eq!(line.terminator, 1, "the writer's `\\n` terminator");
    assert_eq!(next, at_cap.len());
    let (line, _) = read_manifest_line(b"line\r\n", 0);
    let Ok(Some(line)) = line else { panic!("a CRLF line scans") };
    assert_eq!(line.text, "line");
    assert_eq!(line.terminator, 2, "CRLF counts both bytes");
    let mut over_cap = vec![b'x'; MAX_MANIFEST_LINE_BYTES + 1];
    over_cap.push(b'\n');
    let (line, _) = read_manifest_line(&over_cap, 0);
    let Err(fault) = line else { panic!("one content byte over refuses") };
    assert!(fault.message().contains("metadata cap"), "{}", fault.message());
}

#[test]
fn an_oversized_manifest_line_degrades_without_reading_it_unbounded() {
    let reason = damage(scan_bytes(&vec![b'x'; MAX_MANIFEST_LINE_BYTES + 1]));
    assert!(reason.contains("metadata cap"), "{reason}");
}

#[test]
fn a_manifest_past_the_total_budget_degrades() {
    assert_eq!(MAX_MANIFEST_TOTAL_BYTES, 1024 * 1024 * 1024);
    let line = checkpoint_at("s", &"x".repeat(1_000));
    let mut bytes = manifest(&[run_header("l")]);
    while bytes.len() <= 16 * 1024 {
        bytes.extend(encode_line(to_json(&line)));
        bytes.push(b'\n');
    }
    let scanned = |bytes: &[u8]| {
        let lines = read_lines(bytes, 16 * 1024, None);
        let decoded = decoded(&lines);
        scan(Manifest::Read { lines, decoded }, &"p".to_owned(), recorded(63), rules(63))
    };
    let reason = damage(scanned(&bytes));
    assert!(reason.contains("total budget"), "{reason}");
    assert!(!matches!(scanned(&[]), ScanOutcome::Damaged(_)));
}

#[test]
fn a_span_naming_one_segment_twice_is_damage() {
    let twice = [
        run_header("l"),
        segment_of("t", "l-000000.arrow", 0),
        segment_of("t", "l-000000.arrow", 0),
    ];
    let reason = damage(scan_bytes(&manifest(&twice)));
    assert!(reason.contains("more than once"), "{reason}");
    let distinct = [
        run_header("l"),
        segment_of("t", "l-000000.arrow", 0),
        segment_of("t", "l-000001.arrow", 0),
    ];
    assert!(!matches!(scan_bytes(&manifest(&distinct)), ScanOutcome::Damaged(_)));
}

#[test]
fn an_oversized_sidecar_is_damage_not_an_unbounded_read() {
    let reason = damage(scan_manifest(&manifest(&[run_header("l")]), "p", Sidecar::OverCap, rules(63)));
    assert!(reason.contains("sidecar"), "{reason}");
}

#[test]
fn a_sidecar_with_out_of_range_rules_is_damage() {
    let reason = damage(scan_manifest(&manifest(&[run_header("l")]), "p", recorded(2), rules(63)));
    assert!(reason.contains("out-of-range"), "{reason}");
}

#[test]
fn a_symlinked_wal_directory_is_damage_never_followed() {
    let link = Manifest::Symlinked { dir: "/work/wal".to_owned() };
    let reason = damage(scan(link, &"p".to_owned(), recorded(63), rules(63)));
    assert!(reason.contains("symlink"), "{reason}");
}

#[test]
fn a_directory_planted_at_the_manifest_path_is_damage() {
    let planted = Manifest::Unreadable { error: "is not a regular file".to_owned() };
    let reason = damage(scan(planted, &"p".to_owned(), recorded(63), rules(63)));
    assert!(reason.contains("not a regular file"), "{reason}");
}

#[test]
fn an_absent_manifest_is_nothing() {
    let outcome = scan(Manifest::Absent, &"p".to_owned(), recorded(63), rules(63));
    assert!(matches!(outcome, ScanOutcome::Nothing));
}

#[test]
fn scan_tests_run_header_serializes_current_format_version() {
    let json = as_text(to_json(&run_header("l")));
    assert!(json.contains(&format!("\"format_version\":{WAL_FORMAT_VERSION}")), "{json}");
    assert_eq!(WAL_FORMAT_VERSION, 1);
}

/// What a manifest of one header of `version` scans as.
fn scan_version(version: u32) -> ScanOutcome {
    scan_bytes(&manifest(&[run(version, "l", "p")]))
}

fn only_the_current_version_scans() {
    let current = WAL_FORMAT_VERSION;
    assert!(matches!(scan_version(current + 1), ScanOutcome::Unsupported { found, supported }
        if found == current + 1 && supported == current));
    assert!(matches!(scan_version(current - 1), ScanOutcome::Unsupported { found, supported }
        if found == current - 1 && supported == current));
    assert!(matches!(scan_version(current), ScanOutcome::Discard));
}

#[test]
fn scan_tests_any_other_manifest_version_is_unsupported_current_scans_fine() {
    only_the_current_version_scans();
}

#[test]
fn scan_any_other_manifest_version_is_unsupported_current_scans_fine() {
    only_the_current_version_scans();
}

#[test]
fn resume_any_other_manifest_version_is_unsupported_current_scans_fine() {
    only_the_current_version_scans();
}

#[test]
fn a_versionless_manifest_is_unrecognized_and_degrades() {
    let bytes = concat_lines(&[
        r#"{"rec":"run","load_id":"l","pipeline":"p"}"#,
        r#"{"rec":"committed","commit_seq":1}"#,
    ]);
    assert!(matches!(scan_bytes(&bytes), ScanOutcome::Damaged(_)));
}

fn concat_lines(lines: &[&str]) -> Vec<u8> {
    let mut bytes = Vec::new();
    for line in lines {
        bytes.extend(line.as_bytes());
        bytes.push(b'\n');
    }
    bytes
}

#[test]
fn a_manifest_written_by_another_pipeline_refuses_as_foreign() {
    let bytes = manifest(&[run(WAL_FORMAT_VERSION, "l", "orders")]);
    let outcome = scan_manifest(&bytes, "customers", recorded(63), rules(63));
    assert!(matches!(outcome, ScanOutcome::ForeignPipeline { ref occupant } if occupant == "orders"));
}

#[test]
fn a_foreign_manifest_in_another_version_still_refuses_as_foreign() {
    let bytes = manifest(&[run(WAL_FORMAT_VERSION + 1, "l", "orders")]);
    let outcome = scan_manifest(&bytes, "customers", recorded(63), rules(63));
    assert!(matches!(outcome, ScanOutcome::ForeignPipeline { .. }));
}

#[test]
fn a_two_run_manifest_replays_only_the_last_runs_span() {
    let bytes = manifest(&[
        run_header("l"),
        run_header("first"),
        delta("events", None),
        segment("events", "first-000000.arrow"),
        checkpoint("events"),
        WalRecord::Committed { commit_seq: 1 },
        run_header("second"),
        delta("events", None),
        segment("events", "second-000000.arrow"),
        checkpoint("events"),
    ]);
    let span = recovered(scan_bytes(&bytes));
    assert_eq!(span.load_id, "second");
    assert_eq!(replayed_files(&span.records), ["second-000000.arrow"]);
    assert_eq!(span.next_commit_seq, 1, "the second run's sequence starts anew");
}

/// A span resumed under other rules than it was written under.
fn resumed_under_changed_rules(file: &str) {
    let bytes = manifest(&[
        run_header("l"),
        delta("events", None),
        segment("events", file),
        checkpoint("events"),
    ]);
    let reason = damage(scan_manifest(&bytes, "p", recorded(63), rules(30)));
    assert!(
        reason.contains("identifier-normalization rules") && reason.contains("rules change"),
        "{reason}"
    );
}

#[test]
fn scan_tests_a_crashed_span_resumed_under_changed_rules_degrades_naming_the_rules_change() {
    resumed_under_changed_rules("l-000000.arrow");
}

#[test]
fn scan_a_crashed_span_resumed_under_changed_rules_degrades_naming_the_rules_change() {
    let fault = sidecar_drift(recorded(63), rules(30))
        .expect("a rules change refuses");
    let reason = fault.message();
    assert!(
        reason.contains("identifier-normalization rules") && reason.contains("rules change"),
        "{reason}"
    );
}

#[test]
fn a_manifest_without_the_rules_sidecar_degrades() {
    let missing = Sidecar::Unreadable { error: "No such file or directory".to_owned() };
    let reason = damage(scan_manifest(&healthy_manifest(), "p", missing, rules(63)));
    assert_eq!(rules_sidecar(), "rules.json");
    assert!(reason.contains("no readable `rules.json` sidecar"), "{reason}");
    assert!(reason.contains("not a recognized workdir state"), "{reason}");
}

#[test]
fn an_unparseable_rules_sidecar_degrades() {
    let unparsed = Sidecar::Unparsed { error: "expected ident at line 1 column 2".to_owned() };
    let reason = damage(scan_manifest(&healthy_manifest(), "p", unparsed, rules(63)));
    assert!(reason.contains("does not parse"), "{reason}");
}

#[test]
fn a_flipped_cursor_digit_degrades_instead_of_committing_a_forged_position() {
    let text = as_text(healthy_manifest());
    let tampered = text.replace("\"41\"", "\"47\"");
    assert_ne!(tampered, text);
    let reason = damage(scan_bytes(tampered.as_bytes()));
    assert!(reason.contains("checksum"), "{reason}");
}

#[test]
fn the_writers_own_lines_scan_clean() {
    assert!(matches!(scan_bytes(&healthy_manifest()), ScanOutcome::Recover(_)));
}

#[test]
fn a_torn_final_line_still_tolerates_while_a_mismatched_one_degrades() {
    let bytes = healthy_manifest();
    assert!(matches!(scan_bytes(&bytes[..bytes.len() - 20]), ScanOutcome::Discard));
    let flipped = as_text(bytes).replace("\"41\"", "\"47\"");
    assert!(matches!(scan_bytes(flipped.as_bytes()), ScanOutcome::Damaged(_)));
}

#[test]
fn a_torn_last_line_changes_no_scan_and_a_line_behind_it_is_damage() {
    let whole = healthy_manifest();
    let line = &manifest(&[run_header("l"), checkpoint_at("orders", "42")])
        [manifest(&[run_header("l")]).len()..];
    let span = recovered(scan_bytes(&whole));
    for torn in [1, line.len() / 2, line.len() - 20] {
        let mut bytes = whole.clone();
        bytes.extend(&line[..torn]);
        let again = recovered(scan_bytes(&bytes));
        assert_eq!(replayed_files(&again.records), replayed_files(&span.records));
        assert_eq!(again.records.len(), span.records.len());
        bytes.push(b'\n');
        bytes.extend(line);
        assert!(matches!(scan_bytes(&bytes), ScanOutcome::Damaged(_)), "torn after {torn}");
    }
}

#[test]
fn a_bare_manifest_claiming_another_version_refuses_as_unsupported() {
    let bytes = concat_lines(&[
        r#"{"rec":"run","format_version":2,"load_id":"l","pipeline":"p"}"#,
        r#"{"rec":"segment","table":"orders","file":"l-000000.arrow","rows":2}"#,
        r#"{"rec":"checkpoint","stream":"orders","cursor":41}"#,
    ]);
    assert!(matches!(
        scan_bytes(&bytes),
        ScanOutcome::Unsupported { found: 2, supported: 1 }
    ));
}

#[test]
fn an_untrailered_current_version_header_is_never_accepted() {
    let text = as_text(healthy_manifest());
    let mut lines: Vec<&str> = text.lines().collect();
    let header = lines[0];
    lines[0] = &header[..header.rfind('|').expect("a trailer")];
    assert!(matches!(scan_bytes(&concat_lines(&lines)), ScanOutcome::Damaged(_)));
}

/// The healthy manifest, its segment named `file`.
fn with_segment_named(file: &str) -> ScanOutcome {
    scan_bytes(&manifest(&[
        run_header("l"),
        delta("orders", None),
        segment("orders", file),
        checkpoint_at("orders", "41"),
    ]))
}

#[test]
fn a_segment_name_with_path_punctuation_degrades_before_any_open() {
    for evil in ["../../etc/hostname", "/etc/hostname", "..\\..\\x.arrow", "l-..0000.arrow"] {
        let reason = damage(with_segment_named(evil));
        assert!(reason.contains("segment"), "{evil:?}: {reason}");
    }
}

#[test]
fn a_segment_name_off_the_writers_shape_degrades() {
    for forged in ["other-000000.arrow", "l-0000.arrow", "l-00000a.arrow"] {
        assert!(matches!(with_segment_named(forged), ScanOutcome::Damaged(_)), "{forged:?}");
    }
}

#[test]
fn a_forged_max_committed_seq_degrades_instead_of_overflowing() {
    let bytes = manifest(&[
        run_header("l"),
        WalRecord::Committed { commit_seq: u64::MAX },
        delta("orders", None),
        segment("orders", "l-000000.arrow"),
        checkpoint_at("orders", "41"),
    ]);
    let reason = damage(scan_bytes(&bytes));
    assert!(reason.contains("sequence"), "{reason}");
}

#[test]
fn a_headerless_manifest_version_defaults_to_one_forever() {
    assert_eq!(initial_wal_version(), 1);
    let header: Value = serde_json::from_str(r#"{"rec":"run","load_id":"l","pipeline":"p"}"#)
        .expect("a header before versions");
    let version = header
        .get("format_version")
        .and_then(Value::as_u64)
        .map_or_else(initial_wal_version, |version| u32::try_from(version).expect("a version"));
    assert_eq!(version, 1, "absent version means the first, never the current one");
}

#[test]
fn a_run_header_without_a_version_field_does_not_decode() {
    assert!(from_json(br#"{"rec":"run","load_id":"l","pipeline":"p"}"#).is_err());
}

/// `line` classified, with what its JSON decodes as.
fn classified(line: &[u8]) -> ManifestLine {
    decode_line(line, from_json(&line[..json_len(line)]))
}

#[test]
fn a_line_round_trips_and_any_byte_flip_is_corrupt() {
    let line = as_text(encode_line(to_json(&checkpoint_at("s", "wm|41"))));
    assert!(matches!(
        classified(line.as_bytes()),
        ManifestLine::Record(WalRecord::Checkpoint { .. })
    ));
    let flipped = line.replace("41\"", "47\"");
    assert_ne!(flipped, line);
    assert!(matches!(classified(flipped.as_bytes()), ManifestLine::Corrupt(Corruption::Checksum)));
}

#[test]
fn a_verified_line_that_does_not_decode_is_corrupt() {
    let line = encode_line(br#"{"rec":"unheard_of"}"#.to_vec());
    match classified(&line) {
        ManifestLine::Corrupt(Corruption::Undecodable { error }) => {
            assert_eq!(error, "unknown record `unheard_of`");
        }
        _ => panic!("expected an undecodable line"),
    }
}

#[test]
fn every_torn_prefix_of_a_hexless_record_classifies_as_untrailered() {
    let line = encode_line(to_json(&WalRecord::Committed { commit_seq: 7 }));
    for cut in 0..line.len() {
        assert!(matches!(classified(&line[..cut]), ManifestLine::Untrailered(_)), "{cut}");
    }
}

#[test]
fn a_tear_inside_embedded_hex_content_degrades_never_verifies() {
    let embedded_hex = "a".repeat(64);
    let line = encode_line(to_json(&checkpoint_at("s", &format!("done|{embedded_hex}"))));
    let mut corrupt_tears = 0;
    for cut in 0..line.len() {
        match classified(&line[..cut]) {
            ManifestLine::Untrailered(_) => {}
            ManifestLine::Corrupt(_) => corrupt_tears += 1,
            ManifestLine::Record(_) => panic!("a tear at byte {cut} must never verify"),
        }
    }
    assert!(corrupt_tears > 0);
}

#[test]
fn the_segment_gate_is_the_writers_inverse() {
    let load = "19fb4c7c381-1d0ae5-0".to_owned();
    for seq in [0, 42, 999_999, 1_000_000] {
        assert!(verify_segment_file(&load, &segment_file_name(&load, seq)).is_ok());
    }
    for evil in [
        "../../etc/hostname",
        "/etc/hostname",
        "..\\x.arrow",
        "19fb4c7c381-1d0ae5-0-..0000.arrow",
        "other-000000.arrow",
        "19fb4c7c381-1d0ae5-0-0000.arrow",
        "19fb4c7c381-1d0ae5-0-00000a.arrow",
        "19fb4c7c381-1d0ae5-0-000000.parquet",
        "",
    ] {
        assert!(verify_segment_file(&load, &evil.to_owned()).is_err(), "{evil:?}");
    }
}

#[test]
fn segment_names_are_padded_to_six_digits_and_grow_past_them() {
    assert_eq!(segment_file_name("l", 7), "l-000007.arrow");
    assert_eq!(segment_file_name("l", 1_234_567), "l-1234567.arrow");
    assert!(matches!(
        verify_segment_file(&"l".to_owned(), &"a/b".to_owned()),
        Err(NameFault::Punctuation { .. })
    ));
    assert!(matches!(
        verify_segment_file(&"l".to_owned(), &"m-000000.arrow".to_owned()),
        Err(NameFault::Shape { .. })
    ));
}

#[test]
fn a_lines_trailer_is_the_blake3_digest_of_its_json() {
    let line = as_text(encode_line(b"{}".to_vec()));
    assert_eq!(line, format!("{{}}|{}", blake3::hash(b"{}").to_hex()));
}

#[test]
fn a_line_that_is_not_utf8_says_so() {
    let (line, _) = read_manifest_line(b"\xff\xfe\n", 0);
    let Err(fault) = line else { panic!("not UTF-8") };
    let error = std::str::from_utf8(b"\xff\xfe").expect_err("not UTF-8").to_string();
    assert!(fault.message().contains(&error), "{}", fault.message());
}

#[test]
fn a_reader_that_fails_keeps_the_lines_before_it() {
    let bytes = healthy_manifest();
    let lines = read_lines(&bytes, MAX_MANIFEST_TOTAL_BYTES, Some("disk on fire".to_owned()));
    assert_eq!(lines.lines.len(), 4);
    let decoded = decoded(&lines);
    match collect_records(lines, &decoded) {
        Err(ManifestFault::Read(_)) => {}
        _ => panic!("a failed read gives no records"),
    }
}

#[test]
fn blank_lines_are_left_out() {
    let mut bytes = b"\n  \n".to_vec();
    bytes.extend(healthy_manifest());
    assert!(matches!(scan_bytes(&bytes), ScanOutcome::Recover(_)));
}

#[test]
fn an_endless_parent_chain_degrades_naming_its_table() {
    let outcome = scan_span(vec![
        delta("a", Some("b")),
        delta("b", Some("a")),
        segment("a", "l-000000.arrow"),
        checkpoint("orders"),
    ]);
    let ScanOutcome::Damaged(Damage::Coverage(fault)) = outcome else {
        panic!("a circle of parents has no root")
    };
    assert!(fault.message().contains('a'));
}

#[test]
fn only_a_committed_span_is_left_out_and_its_sequence_counts() {
    let span = recovered(scan_span(vec![
        delta("orders", None),
        segment("orders", "l-000000.arrow"),
        checkpoint("orders"),
        WalRecord::Committed { commit_seq: 4 },
        segment("orders", "l-000001.arrow"),
        checkpoint("orders"),
    ]));
    assert_eq!(replayed_files(&span.records), ["l-000001.arrow"]);
    assert_eq!(ensured_tables(&span), ["orders"], "its schema was committed before");
    assert_eq!(span.next_commit_seq, 5);
}

#[test]
fn drifted_rules_are_told_apart_from_unreadable_ones() {
    assert!(sidecar_drift(recorded(63), rules(63)).is_none());
    assert!(matches!(
        sidecar_drift(recorded(63), rules(62)),
        Some(SidecarFault::Drifted { .. })
    ));
    assert!(matches!(sidecar_drift(Sidecar::OverCap, rules(63)), Some(SidecarFault::OverCap)));
}
