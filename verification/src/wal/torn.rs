//! A manifest whose last line is torn: a scan leaves it out, and takes a line behind it for damage.

use crate::wal::lines::{
    content_at, fault_view, is_blank, is_skewed_header, lemma_read_to, line_view, line_views,
    manifest_lines, read_bytes, read_to, records_from, terminator_of, Lines, ManifestFault, ReadFault,
    ReadLine,
};
use crate::wal::record::{
    classify, frame_spec, is_hex, ManifestLine, WalRecord, MAX_MANIFEST_LINE_BYTES,
};
use crate::wal::roundtrip::appended_as;
use crate::wal::scan::{scans, Damage, Manifest, ScanOutcome};
use crate::wal::sidecar::{IdentRules, Sidecar};
use vstd::prelude::*;
use vstd::utf8::*;

verus! {

/// Whether `bytes` are whole lines, each with its line end.
pub open spec fn are_lines(bytes: Seq<u8>) -> bool {
    bytes.len() > 0 ==> bytes.last() == 10u8
}

/// Whether `torn` is a beginning of `line`, which the writer appends for a record whose JSON is
/// `json`: an object, with no carriage return in it.
pub open spec fn is_tear(torn: Seq<u8>, line: Seq<u8>, json: Seq<u8>) -> bool {
    &&& appended_as(line, json)
    &&& json[0] == 123u8
    &&& forall|k: int| 0 <= k < json.len() ==> #[trigger] json[k] != 13u8
    &&& 0 < torn.len() < line.len()
    &&& torn == line.take(torn.len() as int)
    &&& valid_utf8(torn)
}

/// Whether `read` is what reading the whole of `bytes` within `budget` gives.
pub open spec fn is_read(bytes: Seq<u8>, budget: u64, read: Lines) -> bool {
    let expected = manifest_lines(bytes, 0, 0, budget, None);
    line_views(read.lines@) == expected.0 && fault_view(read.fault) == expected.1
}

/// What the line `line`, whose JSON decodes as `decoded` says, is.
pub open spec fn line_of(line: ReadLine, decoded: Result<WalRecord, String>) -> ManifestLine {
    classify(frame_spec(encode_utf8(line.text@)), decoded)
}

/// Whether `lines`, whose JSON decodes as `decoded` says, are records, blank lines aside.
pub open spec fn are_records(
    lines: Seq<ReadLine>,
    decoded: Seq<Result<WalRecord, String>>,
) -> bool {
    &&& lines.len() == decoded.len()
    &&& forall|i: int|
        0 <= i < lines.len() && !is_blank((#[trigger] lines[i]).text@) ==> line_of(
            lines[i],
            decoded[i],
        ) is Record
}

/// Whether a torn line's bytes, whose JSON decodes as `decoded` says, have no trailer and are no
/// header of another version.
pub open spec fn is_untrailered(torn: Seq<u8>, decoded: Result<WalRecord, String>) -> bool {
    classify(frame_spec(torn), decoded) matches ManifestLine::Untrailered(parsed)
        && !is_skewed_header(parsed)
}

/// A line that ends within whole lines is read alike whatever follows them.
proof fn lemma_read_on(lines: Seq<u8>, rest: Seq<u8>, start: int, at: int)
    requires
        are_lines(lines),
        0 <= start <= at < lines.len(),
    ensures
        read_to(lines + rest, start, at) == read_to(lines, start, at),
    decreases lines.len() - at,
{
    if at < start + MAX_MANIFEST_LINE_BYTES + 2 && lines[at] != 10u8 {
        assert((lines + rest)[at] == lines[at]);
        lemma_read_on(lines, rest, start, at + 1);
    } else {
        assert((lines + rest)[at] == lines[at]);
    }
}

/// Whole lines are read alike whatever follows them, and what follows is read behind them.
proof fn lemma_lines_on(lines: Seq<u8>, rest: Seq<u8>, start: int, budget: u64)
    requires
        are_lines(lines),
        0 <= start <= lines.len(),
        manifest_lines(lines, start, start, budget, None).1 is None,
    ensures
        ({
            let all = manifest_lines(lines + rest, start, start, budget, None);
            let first = manifest_lines(lines, start, start, budget, None);
            let behind = manifest_lines(
                lines + rest,
                lines.len() as int,
                lines.len() as int,
                budget,
                None,
            );
            all.0 == first.0 + behind.0 && all.1 == behind.1
        }),
    decreases lines.len() - start,
{
    let whole = lines + rest;
    let first = manifest_lines(lines, start, start, budget, None);
    let behind = manifest_lines(whole, lines.len() as int, lines.len() as int, budget, None);
    if start < lines.len() {
        lemma_read_to(lines, start, start);
        lemma_read_on(lines, rest, start, start);
        let next = read_to(lines, start, start);
        assert(read_bytes(whole, start) =~= read_bytes(lines, start));
        lemma_lines_on(lines, rest, next, budget);
        let head = seq![
            (decode_utf8(content_at(lines, start)), terminator_of(read_bytes(lines, start))),
        ];
        let more = manifest_lines(lines, next, next, budget, None);
        assert((head + more.0) + behind.0 =~= head + (more.0 + behind.0));
    } else {
        assert(first.0 + behind.0 =~= behind.0);
    }
}

/// The bytes of a tear end no line.
proof fn lemma_tear_bytes(torn: Seq<u8>, line: Seq<u8>, json: Seq<u8>, k: int)
    requires
        is_tear(torn, line, json),
        0 <= k < torn.len(),
    ensures
        torn[k] != 10u8,
        torn[k] != 13u8,
{
    assert(torn[k] == line[k]);
    if k < json.len() {
        assert(line[k] == json[k]);
    } else if k > json.len() {
        assert(is_hex(line[k]));
    }
}

/// A read of bytes that end no line goes on over them.
proof fn lemma_read_over(bytes: Seq<u8>, start: int, at: int, end: int)
    requires
        0 <= start <= at <= end <= bytes.len(),
        end - start <= MAX_MANIFEST_LINE_BYTES + 1,
        forall|i: int| at <= i < end ==> #[trigger] bytes[i] != 10u8,
    ensures
        read_to(bytes, start, at) == read_to(bytes, start, end),
    decreases end - at,
{
    if at < end {
        lemma_read_over(bytes, start, at + 1, end);
    }
}

/// A tear behind whole lines is read as one more line.
proof fn lemma_tear_is_read(
    lines: Seq<u8>,
    torn: Seq<u8>,
    line: Seq<u8>,
    json: Seq<u8>,
    rest: Seq<u8>,
)
    requires
        is_tear(torn, line, json),
        rest.len() > 0 ==> rest[0] == 10u8,
    ensures
        ({
            let bytes = lines + torn + rest;
            let start = lines.len() as int;
            &&& content_at(bytes, start) == torn
            &&& read_to(bytes, start, start) == start + torn.len() + if rest.len() > 0 {
                1int
            } else {
                0int
            }
        }),
{
    let bytes = lines + torn + rest;
    let start = lines.len() as int;
    let end = start + torn.len();
    assert forall|i: int| start <= i < end implies #[trigger] bytes[i] != 10u8 by {
        assert(bytes[i] == torn[i - start]);
        lemma_tear_bytes(torn, line, json, i - start);
    }
    lemma_read_over(bytes, start, start, end);
    lemma_tear_bytes(torn, line, json, torn.len() - 1);
    let read = read_bytes(bytes, start);
    if rest.len() > 0 {
        assert(bytes[end] == 10u8);
        assert(read =~= torn.push(10u8));
        assert(read[read.len() - 2] == torn.last());
        assert(terminator_of(read) == 1);
    } else {
        assert(read =~= torn);
        assert(terminator_of(read) == 0);
    }
    assert(content_at(bytes, start) =~= torn);
}

/// The text of lines that begin as others do.
proof fn lemma_same_texts(one: Seq<ReadLine>, other: Seq<ReadLine>, i: int)
    requires
        0 <= i < one.len() <= other.len(),
        line_views(other).take(one.len() as int) == line_views(one),
    ensures
        other[i].text@ == one[i].text@,
{
    assert(line_views(other).take(one.len() as int)[i] == line_views(one)[i]);
    assert(line_views(one)[i] == line_view(one[i]));
    assert(line_views(other)[i] == line_view(other[i]));
}

/// Records give themselves, and lines that begin with them go on from there.
proof fn lemma_records_first(
    lines: Seq<ReadLine>,
    decoded: Seq<Result<WalRecord, String>>,
    longer: Seq<ReadLine>,
    longer_decoded: Seq<Result<WalRecord, String>>,
    fault: Option<ReadFault>,
    i: int,
    records: Seq<WalRecord>,
) -> (all: Seq<WalRecord>)
    requires
        are_records(lines, decoded),
        0 <= i <= lines.len() <= longer.len(),
        longer.len() == longer_decoded.len(),
        line_views(longer).take(lines.len() as int) == line_views(lines),
        longer_decoded.take(lines.len() as int) == decoded,
    ensures
        records_from(lines, None, decoded, i, records) == Ok::<Seq<WalRecord>, ManifestFault>(all),
        records_from(longer, fault, longer_decoded, i, records) == records_from(
            longer,
            fault,
            longer_decoded,
            lines.len() as int,
            all,
        ),
    decreases lines.len() - i,
{
    if i < lines.len() {
        lemma_same_texts(lines, longer, i);
        assert(longer_decoded.take(lines.len() as int)[i] == longer_decoded[i]);
        if is_blank(lines[i].text@) {
            lemma_records_first(
                lines,
                decoded,
                longer,
                longer_decoded,
                fault,
                i + 1,
                records,
            )
        } else {
            let record = line_of(lines[i], decoded[i])->Record_0;
            lemma_records_first(
                lines,
                decoded,
                longer,
                longer_decoded,
                fault,
                i + 1,
                records.push(record),
            )
        }
    } else {
        records
    }
}

/// A torn last line changes no scan: what a manifest comes to with it is what it comes to without
/// it, under the same rules and for the same pipeline.
pub proof fn law_a_torn_last_line_changes_no_scan(
    manifest: Seq<u8>,
    torn: Seq<u8>,
    line: Seq<u8>,
    json: Seq<u8>,
    budget: u64,
    read: Lines,
    decoded: Vec<Result<WalRecord, String>>,
    longer: Lines,
    longer_decoded: Vec<Result<WalRecord, String>>,
    pipeline: Seq<char>,
    sidecar: Sidecar,
    rules: IdentRules,
    outcome: ScanOutcome,
)
    requires
        are_lines(manifest),
        is_tear(torn, line, json),
        manifest.len() + torn.len() <= budget,
        is_read(manifest, budget, read),
        read.fault is None,
        are_records(read.lines@, decoded@),
        is_read(manifest + torn, budget, longer),
        longer_decoded@.len() == decoded@.len() + 1,
        longer_decoded@.drop_last() == decoded@,
        is_untrailered(torn, longer_decoded@.last()),
    ensures
        scans(
            Manifest::Read { lines: longer, decoded: longer_decoded },
            pipeline,
            sidecar,
            rules,
            outcome,
        ) == scans(Manifest::Read { lines: read, decoded }, pipeline, sidecar, rules, outcome),
{
    let n = read.lines@.len() as int;
    let start = manifest.len() as int;
    let whole = manifest + torn;
    assert(line_views(read.lines@).len() == n);
    lemma_lines_on(manifest, torn, 0, budget);
    lemma_tear_is_read(manifest, torn, line, json, Seq::empty());
    assert(manifest + torn + Seq::<u8>::empty() =~= whole);
    let behind = manifest_lines(whole, start, start, budget, None);
    let end = whole.len() as int;
    assert(manifest_lines(whole, end, end, budget, None).0 =~= Seq::<(Seq<char>, int)>::empty());
    assert(behind.0 =~= seq![(decode_utf8(torn), terminator_of(read_bytes(whole, start)))]);
    assert(behind.1 is None);
    assert(line_views(longer.lines@).len() == n + 1);
    assert(line_views(longer.lines@).take(n) =~= line_views(read.lines@));
    assert(longer_decoded@.take(n) =~= decoded@);
    assert(line_views(longer.lines@)[n] == line_view(longer.lines@[n]));
    assert(longer.lines@[n].text@ == decode_utf8(torn));
    decode_utf8_encode_utf8(torn);
    assert(longer.fault is None);
    let all = lemma_records_first(
        read.lines@,
        decoded@,
        longer.lines@,
        longer_decoded@,
        None,
        0,
        Seq::empty(),
    );
    assert(longer_decoded@[n] == longer_decoded@.last());
    assert(records_from(longer.lines@, None, longer_decoded@, n + 1, all) == Ok::<
        Seq<WalRecord>,
        ManifestFault,
    >(all));
    assert(records_from(longer.lines@, None, longer_decoded@, n, all) == Ok::<
        Seq<WalRecord>,
        ManifestFault,
    >(all));
}

/// An object's text is not blank.
proof fn lemma_object_is_not_blank(bytes: Seq<u8>)
    requires
        valid_utf8(bytes),
        bytes.len() > 0,
        bytes[0] == 123u8,
    ensures
        !is_blank(decode_utf8(bytes)),
{
    let b = bytes[0];
    assert(is_leading_byte_width_1(b)) by {
        utf8_byte_ranges_bitwise(b);
    }
    assert((123u8 & 0x7F) as u32 == 123u32) by (bit_vector);
    assert(decode_first_scalar(bytes) == 123);
    assert(decode_utf8(bytes)[0] == decode_first_scalar(bytes) as char);
}

/// Anything behind a torn line makes damage: no writer goes on behind an append that failed.
pub proof fn law_a_line_behind_a_torn_one_is_damage(
    manifest: Seq<u8>,
    torn: Seq<u8>,
    line: Seq<u8>,
    json: Seq<u8>,
    behind: Seq<u8>,
    budget: u64,
    read: Lines,
    decoded: Vec<Result<WalRecord, String>>,
    longer: Lines,
    longer_decoded: Vec<Result<WalRecord, String>>,
    pipeline: Seq<char>,
    sidecar: Sidecar,
    rules: IdentRules,
    outcome: ScanOutcome,
)
    requires
        are_lines(manifest),
        is_tear(torn, line, json),
        behind.len() > 0,
        manifest.len() + torn.len() <= budget,
        is_read(manifest, budget, read),
        read.fault is None,
        are_records(read.lines@, decoded@),
        is_read(manifest + torn + (seq![10u8] + behind), budget, longer),
        longer_decoded@.len() == longer.lines@.len(),
        longer_decoded@.take(decoded@.len() as int) == decoded@,
        longer_decoded@.len() > decoded@.len() ==> is_untrailered(
            torn,
            longer_decoded@[decoded@.len() as int],
        ),
        scans(
            Manifest::Read { lines: longer, decoded: longer_decoded },
            pipeline,
            sidecar,
            rules,
            outcome,
        ),
    ensures
        outcome matches ScanOutcome::Damaged(Damage::Manifest(_)),
{
    let n = read.lines@.len() as int;
    let start = manifest.len() as int;
    let rest = seq![10u8] + behind;
    let whole = manifest + torn + rest;
    assert(whole =~= manifest + (torn + rest));
    assert(line_views(read.lines@).len() == n);
    lemma_lines_on(manifest, torn + rest, 0, budget);
    lemma_tear_is_read(manifest, torn, line, json, rest);
    let next = start + torn.len() + 1;
    let from = manifest_lines(whole, start, start, budget, None);
    let after = manifest_lines(whole, next, next, budget, None);
    assert(line_views(longer.lines@).len() == longer.lines@.len());
    assert(line_views(longer.lines@).len() >= n);
    assert(line_views(longer.lines@).take(n) =~= line_views(read.lines@));
    let all = lemma_records_first(
        read.lines@,
        decoded@,
        longer.lines@,
        longer_decoded@,
        longer.fault,
        0,
        Seq::empty(),
    );
    if torn.len() + 1 + start > budget {
        assert(from.0 =~= Seq::<(Seq<char>, int)>::empty());
        assert(longer.lines@.len() == n);
        assert(longer.fault is Some);
    } else {
        assert(from.0
            =~= seq![(decode_utf8(torn), terminator_of(read_bytes(whole, start)))] + after.0);
        assert(after.0.len() > 0 || after.1 is Some) by {
            assert(next < whole.len());
        }
        assert(line_views(longer.lines@)[n] == (
            decode_utf8(torn),
            terminator_of(read_bytes(whole, start)),
        ));
        assert(line_views(longer.lines@)[n] == line_view(longer.lines@[n]));
        assert(longer.lines@[n].text@ == decode_utf8(torn));
        decode_utf8_encode_utf8(torn);
        assert(torn[0] == line[0]);
        assert(line[0] == json[0]);
        lemma_object_is_not_blank(torn);
        assert(longer.lines@.len() == n + 1 + after.0.len());
    }
}

} // verus!
