//! Segments, the replay of a span, the log's directory and its writer.

use std::sync::Arc;

use arrow::array::{BooleanArray, Int64Array, StringArray};
use arrow::datatypes::{DataType, Field, Schema};
use arrow::ipc::reader::FileReader;
use arrow::ipc::writer::FileWriter;
use arrow::record_batch::RecordBatch;
use rdlt_engine::wal::dir::{
    clear, dir_in, ensure_owned_dir, is_marker, ownership_marker_bytes, verify_owned_dir,
    ClearFault, ClearStep, Marker, Ownership, OwnershipFault, Place, RefusalKind, Removal,
    MARKER_READ_BYTES,
};
use rdlt_engine::wal::lineage::SchemaEntry;
use rdlt_engine::wal::record::{
    encode_line, RecordedSchema, WalRecord, MAX_MANIFEST_LINE_BYTES, WAL_FORMAT_VERSION,
};
use rdlt_engine::wal::replay::{checked_rows_sum, Cursors, Event, Replay, ReplayFault, Stage};
use rdlt_engine::wal::scan::RecoverySpan;
use rdlt_engine::wal::segment::{
    admit_batch, admit_field_name, caught_decode, declared_footer, extents_within_file,
    panic_text, refuse_overdeclared_segment_layout, trailer_fits, LayoutFault, SegmentStat,
    MAX_SEGMENT_FOOTER_BYTES,
};
use rdlt_engine::wal::writer::{
    append, last_line, open_steps, reconcile_unterminated_tail, wal_err, OpenMode, OpenStep,
    SyncStep, TailFix, Wal, WriteFault,
};

fn batch(rows: usize) -> RecordBatch {
    let schema = Arc::new(Schema::new(vec![
        Field::new("id", DataType::Int64, false),
        Field::new("name", DataType::Utf8, true),
    ]));
    let count = i64::try_from(rows).expect("rows fit");
    RecordBatch::try_new(
        schema,
        vec![
            Arc::new((0..count).collect::<Int64Array>()),
            Arc::new((0..rows).map(|i| Some(format!("row-{i}"))).collect::<StringArray>()),
        ],
    )
    .expect("a batch")
}

fn written(batch: &RecordBatch) -> Vec<u8> {
    let mut writer = FileWriter::try_new(Vec::new(), &batch.schema()).expect("a writer");
    writer.write(batch).expect("a batch is written");
    writer.finish().expect("a footer is written");
    writer.into_inner().expect("the bytes")
}

fn stat(len: usize) -> SegmentStat {
    SegmentStat {
        len: len as u64,
        allocated: len as u64,
        mtime: 1,
        mtime_nsec: 2,
        ctime: 3,
        ctime_nsec: 4,
    }
}

/// The trailer and the footer at the end of a segment's bytes.
fn tail(bytes: &[u8]) -> ([u8; 10], &[u8]) {
    let at = bytes.len() - 10;
    let mut trailer = [0_u8; 10];
    trailer.copy_from_slice(&bytes[at..]);
    let len = declared_footer(bytes.len() as u64, trailer).unwrap_or_else(|fault| {
        panic!("{}", fault.message())
    });
    (trailer, &bytes[at - usize::try_from(len).expect("a length")..at])
}

/// The batches of a segment, once its layout passes.
fn opened(bytes: &[u8]) -> Result<Vec<RecordBatch>, String> {
    trailer_fits(bytes.len() as u64).map_err(|fault| fault.message())?;
    let at = bytes.len() - 10;
    let mut trailer = [0_u8; 10];
    trailer.copy_from_slice(&bytes[at..]);
    let len = declared_footer(bytes.len() as u64, trailer).map_err(|fault| fault.message())?;
    let footer = &bytes[at - usize::try_from(len).expect("a length")..at];
    let stat = stat(bytes.len());
    refuse_overdeclared_segment_layout(&stat, trailer, footer, &stat)
        .map_err(|fault| fault.message())?;
    let reader = FileReader::try_new(std::io::Cursor::new(bytes.to_vec()), None)
        .map_err(|error| error.to_string())?;
    reader.map(|batch| batch.map_err(|error| error.to_string())).collect()
}

fn rows_round_trip() {
    let decoded = opened(&written(&batch(1_000))).expect("the segment opens");
    assert_eq!(decoded.len(), 1);
    assert_eq!(decoded[0].num_rows(), 1_000);
    assert_eq!(decoded[0].num_columns(), 2);
}

fn an_empty_batch_round_trips() {
    let decoded = opened(&written(&batch(0))).expect("the segment opens");
    assert_eq!(decoded.len(), 1, "the batch must survive, not vanish");
    assert_eq!(decoded[0].num_rows(), 0);
}

#[test]
fn segment_a_segment_round_trips_its_rows() {
    rows_round_trip();
}

#[test]
fn replay_a_segment_round_trips_its_rows() {
    rows_round_trip();
}

#[test]
fn resume_a_segment_round_trips_its_rows() {
    rows_round_trip();
}

#[test]
fn segment_an_empty_batch_round_trips_as_one_empty_batch() {
    an_empty_batch_round_trips();
}

#[test]
fn replay_an_empty_batch_round_trips_as_one_empty_batch() {
    an_empty_batch_round_trips();
}

#[test]
fn resume_an_empty_batch_round_trips_as_one_empty_batch() {
    an_empty_batch_round_trips();
}

#[test]
fn a_truncated_segment_is_refused_not_replayed_short() {
    let bytes = written(&batch(5_000));
    let full = bytes.len();
    for keep in [full / 2, full - 4_096, full - 8] {
        assert!(opened(&bytes[..keep]).is_err(), "{keep}");
    }
}

fn a_decoder_panic_is_damage() {
    let error = caught_decode::<()>(Err(panic_text(Some("crafted metadata"), None)))
        .expect_err("a decoder unwind must be contained");
    assert!(error.contains("decoder panicked"), "{error}");
    assert!(error.contains("crafted metadata"), "{error}");
}

#[test]
fn segment_a_decoder_panic_is_classified_as_segment_damage() {
    a_decoder_panic_is_damage();
}

#[test]
fn replay_a_decoder_panic_is_classified_as_segment_damage() {
    a_decoder_panic_is_damage();
}

#[test]
fn a_decoders_own_result_is_kept() {
    assert_eq!(caught_decode(Ok(Ok(7_u8))), Ok(7));
    assert_eq!(caught_decode::<u8>(Ok(Err("short".to_owned()))), Err("short".to_owned()));
    assert_eq!(panic_text(None, Some(&"owned".to_owned())), "owned");
    assert!(!panic_text(None, None).is_empty());
}

#[test]
fn a_segment_batch_is_held_to_the_wire_batch_rules() {
    let ceiling = 65_536_u64;
    assert!(admit_batch(ceiling, ceiling, Ok(())).is_ok(), "at the ceiling");
    let refusal = admit_batch(ceiling + 1, ceiling, Ok(())).expect_err("over the ceiling");
    assert!(refusal.message().contains("row batch ceiling"), "{}", refusal.message());
    let twins = "field `a` is declared twice among one set of siblings".to_owned();
    let refusal = admit_batch(1, ceiling, Err(twins)).expect_err("twins refuse");
    assert!(refusal.message().contains("twice among one set of siblings"));
    let wide = "4097 columns once nested fields are counted".to_owned();
    let refusal = admit_batch(1, ceiling, Err(wide)).expect_err("nested width refuses");
    assert!(refusal.message().contains("once nested fields are counted"));
    assert!(admit_field_name(63, 63).is_ok());
    assert!(admit_field_name(64, 63).is_err());
}

#[test]
fn blocks_that_pass_pass_reordered_fewer_and_in_a_longer_file() {
    let blocks = vec![(0, 8, 400), (500, 8, 400), (900, 8, 50)];
    assert!(extents_within_file(1_000, 1_000, &blocks).is_ok());
    let fewer = vec![blocks[2], blocks[0]];
    for (len, allocated) in [(1_000, 1_000), (1_500, 1_000), (1_000, 4_000), (2_000, 4_000)] {
        assert!(extents_within_file(len, allocated, &fewer).is_ok());
    }
    assert!(extents_within_file(900, 1_000, &fewer).is_err(), "a shorter file holds less");
}

#[test]
fn block_extents_are_bounded_per_block_and_in_sum_and_density() {
    let extents = |len: u64, allocated: u64, blocks: Vec<(i64, i32, i64)>| {
        extents_within_file(len, allocated, &blocks).map_err(|fault| fault.message())
    };
    extents(1_000, 1_000, vec![(0, 8, 900)]).expect("one honest block");
    extents(1_000, 1_000, vec![(0, 8, 400), (500, 8, 400)])
        .expect("non-overlapping extents within the file");
    let error = extents(1_000, 1_000, vec![(0, 8, 900), (0, 8, 900), (0, 8, 900)])
        .expect_err("overlapping extents past 2x refuse");
    assert!(error.contains("summing"), "{error}");
    let error = extents(1_000, 1_000, vec![(0, 8, 2_000)]).expect_err("a block past the file");
    assert!(error.contains("outside its own"), "{error}");
    let error = extents(1 << 30, 4_096, vec![(8, 8, (1 << 30) - 32)])
        .expect_err("a sparse giant refuses");
    assert!(error.contains("actually allocated"), "{error}");
    extents(1_000, 300, vec![(0, 8, 900)]).expect("3x allocation slack passes the 4x headroom");
    extents(1_000, 1_000, vec![(0, 8, -1)]).expect_err("a negative body refuses");
}

#[test]
fn a_sparse_giant_segment_is_refused_by_the_density_rule() {
    let bytes = written(&batch(3));
    let (trailer, footer) = tail(&bytes);
    let honest = stat(bytes.len());
    assert!(refuse_overdeclared_segment_layout(&honest, trailer, footer, &honest).is_ok());
    let mut sparse = stat(512 << 20);
    sparse.allocated = 0;
    let error = refuse_overdeclared_segment_layout(&sparse, trailer, footer, &sparse)
        .expect_err("nothing is allocated");
    assert!(error.message().contains("actually allocated"), "{}", error.message());
}

#[test]
fn the_change_detect_compare_is_documented_as_ctime_bearing() {
    let before = stat(1);
    let mut after = stat(1);
    assert!(!before.changed(&after));
    after.ctime_nsec = 5;
    assert!(before.changed(&after), "a ctime-nsec move is a change");
    let mut after = stat(1);
    after.ctime = 9;
    assert!(before.changed(&after), "a ctime move is a change");
}

#[test]
fn a_segment_that_changed_while_it_was_read_is_refused() {
    let bytes = written(&batch(3));
    let (trailer, footer) = tail(&bytes);
    let before = stat(bytes.len());
    let mut after = stat(bytes.len());
    after.mtime_nsec = 9;
    assert!(matches!(
        refuse_overdeclared_segment_layout(&before, trailer, footer, &after),
        Err(LayoutFault::Changed)
    ));
}

#[test]
fn an_honest_maximal_segments_footer_sits_far_under_the_cap() {
    let fields: Vec<Field> =
        (0..4_096).map(|index| Field::new(format!("c{index}"), DataType::Int64, true)).collect();
    let bytes = written(&RecordBatch::new_empty(Arc::new(Schema::new(fields))));
    let (_, footer) = tail(&bytes);
    assert!(footer.len() as u64 * 4 <= MAX_SEGMENT_FOOTER_BYTES, "{}", footer.len());
    let decoded = opened(&bytes).expect("the maximal segment opens");
    assert_eq!(decoded.len(), 1);
    assert_eq!(decoded[0].num_columns(), 4_096);
}

#[test]
fn a_footer_that_is_none_is_refused() {
    let mut trailer = [0_u8; 10];
    trailer[4..].copy_from_slice(b"ARROW1");
    trailer[..4].copy_from_slice(&16_i32.to_le_bytes());
    assert!(matches!(trailer_fits(9), Err(LayoutFault::TooSmall { file_len: 9 })));
    assert_eq!(declared_footer(100, trailer).ok(), Some(16));
    assert!(matches!(declared_footer(20, trailer), Err(LayoutFault::FooterPastFile { .. })));
    assert!(matches!(declared_footer(100, [0_u8; 10]), Err(LayoutFault::Trailer { .. })));
    let file = stat(100);
    assert!(matches!(
        refuse_overdeclared_segment_layout(&file, trailer, &[0xff_u8; 16], &file),
        Err(LayoutFault::Footer { .. })
    ));
    trailer[..4].copy_from_slice(&(20_i32 << 20).to_le_bytes());
    assert!(matches!(declared_footer(1 << 30, trailer), Err(LayoutFault::FooterOverCap { .. })));
}

#[test]
fn batches_of_booleans_are_counted_as_they_are() {
    let schema = Arc::new(Schema::new(vec![Field::new("b", DataType::Boolean, false)]));
    let values = Arc::new(BooleanArray::from(vec![false; 10]));
    let batch = RecordBatch::try_new(schema, vec![values]).expect("a batch");
    assert_eq!(opened(&written(&batch)).expect("it opens")[0].num_rows(), 10);
}

#[test]
fn the_row_sum_refuses_overflow_typed() {
    assert_eq!(checked_rows_sum(2, 3).ok(), Some(5));
    assert_eq!(checked_rows_sum(u64::MAX, 0).ok(), Some(u64::MAX));
    let reason = match checked_rows_sum(u64::MAX, 1) {
        Err(overflow) => overflow.message(),
        Ok(sum) => panic!("a wrapping sum refuses, got {sum}"),
    };
    assert!(
        reason.contains("overflows") && reason.contains("no writer records that many"),
        "{reason}"
    );
}

fn schema(table: &str) -> RecordedSchema {
    RecordedSchema {
        table: table.to_owned(),
        parent: None,
        root: table.to_owned(),
        body: "[]".to_owned(),
    }
}

/// A span of one table, two segments and a checkpoint.
fn span() -> RecoverySpan {
    let segment = |seq: u64, rows: u64| WalRecord::Segment {
        table: "orders".to_owned(),
        file: format!("l-{seq:06}.arrow"),
        rows,
    };
    RecoverySpan {
        load_id: "l".to_owned(),
        next_commit_seq: 3,
        records: vec![
            WalRecord::Delta {
                schema: schema("orders"),
                delta: "[]".to_owned(),
                mode: "append".to_owned(),
            },
            segment(0, 3),
            segment(1, 5),
            WalRecord::Checkpoint {
                stream: "orders".to_owned(),
                root: "orders".to_owned(),
                cursor: "8".to_owned(),
            },
        ],
        schemas: vec![SchemaEntry { schema: schema("orders"), mode: "append".to_owned() }],
    }
}

#[test]
fn a_replay_counts_every_segment_before_it_writes_one() {
    let mut replay = Replay::start(span(), Cursors::new());
    assert!(matches!(replay.stage(), Stage::Counting { at: 1 }));
    replay.advance(Event::Counted { rows: 3 });
    assert!(matches!(replay.stage(), Stage::Counting { at: 2 }));
    replay.advance(Event::Counted { rows: 5 });
    assert!(matches!(replay.stage(), Stage::Ensuring { at: 0 }));
    replay.advance(Event::Done);
    assert!(matches!(replay.stage(), Stage::Applying { at: 0 }));
    replay.advance(Event::Done);
    for (at, rows) in [(1, 3), (2, 5)] {
        assert!(matches!(replay.stage(), Stage::Opening { at: seen } if *seen == at));
        replay.advance(Event::Done);
        assert!(matches!(replay.stage(), Stage::Reading { rows: 0, .. }));
        replay.advance(Event::Batch { rows });
        assert!(matches!(replay.stage(), Stage::Writing { rows: seen, .. } if *seen == rows));
        replay.advance(Event::Done);
        replay.advance(Event::End);
    }
    assert!(matches!(replay.stage(), Stage::Applying { at: 3 }));
    replay.advance(Event::Done);
    assert!(matches!(replay.stage(), Stage::Committing));
    replay.advance(Event::Done);
    assert!(matches!(replay.stage(), Stage::Finished));
    assert_eq!(replay.batches(), 2);
    assert_eq!(replay.span().next_commit_seq, 3);
}

/// The cursors of `cursors`, by stream.
fn noted(cursors: &Cursors) -> Vec<(&str, &str)> {
    let mut noted: Vec<(&str, &str)> = cursors
        .entries()
        .iter()
        .map(|entry| (entry.stream.as_str(), entry.cursor.as_str()))
        .collect();
    noted.sort_unstable();
    noted
}

#[test]
fn a_replay_commits_the_last_cursor_of_every_stream() {
    let checkpoint = |stream: &str, cursor: &str| WalRecord::Checkpoint {
        stream: stream.to_owned(),
        root: stream.to_owned(),
        cursor: cursor.to_owned(),
    };
    let span = RecoverySpan {
        load_id: "l".to_owned(),
        next_commit_seq: 3,
        records: vec![checkpoint("a", "1"), checkpoint("b", "2"), checkpoint("a", "3")],
        schemas: Vec::new(),
    };
    let mut cursors = Cursors::new();
    for (stream, cursor) in [("b", "0"), ("c", "9"), ("c", "7")] {
        cursors.note(&stream.to_owned(), &cursor.to_owned());
    }
    assert_eq!(noted(&cursors), [("b", "0"), ("c", "7")]);
    let mut replay = Replay::start(span, cursors);
    replay.advance(Event::Done);
    assert_eq!(noted(replay.cursors()), [("a", "1"), ("b", "0"), ("c", "7")]);
    replay.advance(Event::Done);
    replay.advance(Event::Done);
    assert!(matches!(replay.stage(), Stage::Committing));
    let commit = replay.commit();
    assert_eq!((commit.load_id.as_str(), commit.commit_seq), ("l", 3));
    assert_eq!((commit.last_commit.load_id.as_str(), commit.last_commit.commit_seq), ("l", 3));
    assert_eq!(noted(&commit.cursors), [("a", "3"), ("b", "2"), ("c", "7")]);
    replay.advance(Event::Done);
    assert!(matches!(replay.stage(), Stage::Finished), "the commit comes last");
}

#[test]
fn a_manifest_disagreeing_with_its_segment_is_not_replayed() {
    let mut replay = Replay::start(span(), Cursors::new());
    replay.advance(Event::Counted { rows: 4 });
    match replay.stage() {
        Stage::Abandoned(ReplayFault::Miscounted { file, recorded, decoded }) => {
            assert_eq!(file, "l-000000.arrow");
            assert_eq!((*recorded, *decoded), (3, 4));
        }
        _ => panic!("a miscounted segment abandons the replay"),
    }
    let mut replay = Replay::start(span(), Cursors::new());
    replay.advance(Event::Failed { reason: "short".to_owned() });
    assert!(matches!(replay.stage(), Stage::Abandoned(ReplayFault::Unreadable { .. })));
    replay.advance(Event::Done);
    assert!(matches!(replay.stage(), Stage::Abandoned(_)), "an abandoned replay stays so");
}

#[test]
fn a_directory_is_the_logs_where_it_is_empty_or_marked() {
    assert_eq!(dir_in("/work"), "/work/wal");
    let marked = ownership_marker_bytes();
    assert!(is_marker(&marked));
    assert_eq!(MARKER_READ_BYTES, marked.len() as u64 + 1);
    let place = |marker: Marker, empty: bool| Place::Directory { marker, empty };
    let absent = || Marker::Absent { error: "no such file".to_owned() };
    let owned = place(Marker::File { contents: marked.clone() }, false);
    assert!(matches!(ensure_owned_dir(&owned), Ok(Ownership::Owned)));
    assert!(verify_owned_dir(&owned).is_ok());
    assert!(matches!(ensure_owned_dir(&place(absent(), true)), Ok(Ownership::Adopt)));
    for (place, expected) in [
        (Place::Other, "directory"),
        (place(Marker::File { contents: b"other".to_vec() }, false), "marker"),
        (place(Marker::Other, false), "marker"),
        (place(absent(), false), "non-empty"),
    ] {
        let fault = match ensure_owned_dir(&place) {
            Err(fault) => fault.message("/work/wal", "/work/wal/.owner"),
            Ok(_) => panic!("a directory that is not the log's is refused"),
        };
        assert!(fault.contains(expected), "{fault}");
        assert!(verify_owned_dir(&place).is_err());
    }
    assert!(matches!(verify_owned_dir(&Place::Other), Err(ClearFault::NotADirectory)));
    assert!(matches!(
        ensure_owned_dir(&place(absent(), false)),
        Err(OwnershipFault::NotEmpty)
    ));
    for (place, kind, expected) in [
        (Place::Other, RefusalKind::PermissionDenied, "refusing to clear non-directory"),
        (place(absent(), true), RefusalKind::NotFound, "no such file"),
        (place(absent(), false), RefusalKind::NotFound, "no such file"),
        (place(Marker::Other, false), RefusalKind::PermissionDenied, "without a valid"),
        (
            place(Marker::File { contents: [marked.clone(), vec![10]].concat() }, false),
            RefusalKind::PermissionDenied,
            "without a valid",
        ),
    ] {
        let fault = verify_owned_dir(&place).expect_err("nothing of the log's is there");
        assert_eq!(fault.kind(), kind);
        let message = fault.message("/work/wal");
        assert!(message.contains(expected), "{message}");
    }
    assert!(matches!(clear(Removal::Removed), ClearStep::Cleared));
    assert!(matches!(clear(Removal::Missing), ClearStep::Cleared));
    assert!(matches!(clear(Removal::Failed { remains: true }), ClearStep::Restamp));
    assert!(matches!(clear(Removal::Failed { remains: false }), ClearStep::Failed));
}

#[test]
fn the_rules_are_written_before_the_manifest_is_opened() {
    assert_eq!(
        open_steps(OpenMode::Fresh),
        [
            OpenStep::RemoveSidecar,
            OpenStep::WriteSidecar,
            OpenStep::OpenManifest(OpenMode::Fresh),
            OpenStep::AppendHeader,
        ]
    );
    assert_eq!(
        open_steps(OpenMode::Append),
        [
            OpenStep::RemoveSidecar,
            OpenStep::WriteSidecar,
            OpenStep::OpenManifest(OpenMode::Append),
            OpenStep::ReconcileTail,
            OpenStep::AppendHeader,
        ]
    );
}

#[test]
fn a_writer_names_its_segments_and_syncs_them_before_the_manifest() {
    let load = "l".to_owned();
    let Ok((mut wal, OpenMode::Fresh)) = Wal::open(&load, "/work/wal/manifest", false, false)
    else {
        panic!("a fresh log opens")
    };
    assert!(matches!(wal.header(&"p".to_owned()), WalRecord::Run { format_version, .. }
        if format_version == WAL_FORMAT_VERSION));
    let first = wal.begin_segment();
    assert_eq!(first, "l-000000.arrow");
    assert!(matches!(wal.finish_segment(&"t".to_owned(), &first, 2),
        WalRecord::Segment { rows: 2, .. }));
    let second = wal.begin_segment();
    assert_eq!(second, "l-000001.arrow");
    wal.finish_segment(&"t".to_owned(), &second, 3);
    let steps: Vec<String> = wal
        .sync_for_commit()
        .into_iter()
        .map(|step| match step {
            SyncStep::Segment(file) => file,
            SyncStep::Directory => "directory".to_owned(),
            SyncStep::Manifest => "manifest".to_owned(),
        })
        .collect();
    assert_eq!(steps, ["l-000000.arrow", "l-000001.arrow", "directory", "manifest"]);
    assert!(matches!(wal.mark_committed(1), WalRecord::Committed { commit_seq: 1 }));
    assert!(wal.reclaim(false).is_empty(), "nothing goes before the commit is durable");
    assert_eq!(wal.reclaim(true), ["l-000000.arrow", "l-000001.arrow"]);
    assert!(wal.reclaim(true).is_empty());
}

#[test]
fn a_log_left_behind_is_only_appended_to_when_it_is_vouched_for() {
    let load = "l".to_owned();
    assert!(matches!(
        Wal::open(&load, "/work/wal/manifest", true, false),
        Err(WriteFault::Residue { .. })
    ));
    assert!(matches!(
        Wal::open(&load, "/work/wal/manifest", true, true),
        Ok((_, OpenMode::Append))
    ));
    assert!(wal_err("opening", "denied").contains("denied"));
}

#[test]
fn a_line_over_the_cap_is_not_appended() {
    let fits = append(b"{}".to_vec()).unwrap_or_else(|fault| panic!("{}", fault.message()));
    assert_eq!(fits.last(), Some(&b'\n'));
    assert!(matches!(
        append(vec![b'x'; MAX_MANIFEST_LINE_BYTES]),
        Err(WriteFault::OverCap { .. })
    ));
}

#[test]
fn an_unterminated_tail_is_ended_or_cut() {
    let whole = encode_line(br#"{"rec":"committed","commit_seq":7}"#.to_vec());
    let record = || Ok(WalRecord::Committed { commit_seq: 7 });
    assert!(matches!(reconcile_unterminated_tail(b"", record()), TailFix::Nothing));
    let mut ended = whole.clone();
    ended.push(b'\n');
    assert!(matches!(reconcile_unterminated_tail(&ended, record()), TailFix::Nothing));
    let mut unended = ended.clone();
    unended.extend(&whole);
    assert_eq!(last_line(&unended), ended.len());
    assert!(matches!(reconcile_unterminated_tail(&unended, record()), TailFix::Terminate));
    let torn = &unended[..unended.len() - 3];
    let fix = reconcile_unterminated_tail(torn, Err("torn".to_owned()));
    assert!(matches!(fix, TailFix::Truncate(len) if len == ended.len()));
    let mut binary = ended.clone();
    binary.extend(b"\xff\xff");
    let fix = reconcile_unterminated_tail(&binary, Err("torn".to_owned()));
    assert!(matches!(fix, TailFix::Truncate(len) if len == ended.len()));
}
