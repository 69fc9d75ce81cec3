//! What a manifest's bytes come to: how they part into lines, which lines are records, and what is
//! said of the rest.

use crate::wal::lines::{
    content_at, is_blank, lemma_read_to, manifest_lines, read_bytes, read_to, records_from,
    terminator_of, utf8_fault, FaultView, ManifestFault, ReadFault, ReadLine,
};
use crate::wal::record::{
    arrow_suffix, blake3_hex, classify, frame_spec, has_path_punctuation, has_trailer, json_spec,
    name_fault, punctuated_at, trailed_digest, trailed_json, writer_shaped, Corruption, Frame,
    ManifestLine, NameFault, WalRecord, MAX_MANIFEST_LINE_BYTES, WAL_FORMAT_VERSION,
};
use crate::wal::writer::{fixed, sync_steps, tail_fix, tail_start, SyncStep};
use vstd::prelude::*;
use vstd::utf8::*;

verus! {

/// Whether `line` is `json`, `|`, and `digest`, which has a digest's length and characters.
pub open spec fn is_marked(line: Seq<u8>, json: Seq<u8>, digest: Seq<u8>) -> bool {
    &&& json.len() > 0
    &&& digest.len() == 64
    &&& forall|i: int|
        0 <= i < 64 ==> 48 <= #[trigger] digest[i] <= 57 || 97 <= digest[i] <= 102
    &&& line == json + seq![124u8] + digest
}

/// A line that ends in `|` and a digest is verified by exactly the digest of what stands before,
/// and any other is told as damage. What it is decoded from is what stands before.
pub proof fn law_lines_are_verified_by_their_digest(
    line: Seq<u8>,
    json: Seq<u8>,
    digest: Seq<u8>,
    decoded: Result<WalRecord, String>,
)
    requires
        is_marked(line, json, digest),
    ensures
        json_spec(line) == json,
        digest == blake3_hex(json) ==> frame_spec(line) == Frame::Verified,
        digest != blake3_hex(json) ==> frame_spec(line) == Frame::Mismatched,
        digest != blake3_hex(json) ==> classify(frame_spec(line), decoded)
            == ManifestLine::Corrupt(Corruption::Checksum),
        digest == blake3_hex(json) ==> (match decoded {
            Ok(record) => classify(frame_spec(line), decoded) == ManifestLine::Record(record),
            Err(error) => classify(frame_spec(line), decoded) == ManifestLine::Corrupt(
                Corruption::Undecodable { error },
            ),
        }),
{
    assert forall|i: int| line.len() - 64 <= i < line.len() implies crate::wal::record::is_hex(
        #[trigger] line[i],
    ) by {
        assert(line[i] == digest[i - (line.len() - 64)]);
    }
    assert(line[line.len() - 65] == 124u8);
    assert(trailed_json(line) =~= json);
    assert(trailed_digest(line) =~= digest);
}

/// A line that does not end so has no trailer: it is decoded whole, and is never taken for a
/// record or for damage.
pub proof fn law_other_lines_have_no_trailer(line: Seq<u8>, decoded: Result<WalRecord, String>)
    requires
        forall|json: Seq<u8>, digest: Seq<u8>| !is_marked(line, json, digest),
    ensures
        json_spec(line) == line,
        frame_spec(line) == Frame::Untrailered,
        classify(frame_spec(line), decoded) == ManifestLine::Untrailered(
            match decoded {
                Ok(record) => Some(record),
                Err(_) => None,
            },
        ),
{
    if has_trailer(line) {
        let json = line.take(line.len() - 65);
        let digest = line.skip(line.len() - 64);
        assert forall|i: int| 0 <= i < 64 implies 48 <= #[trigger] digest[i] <= 57 || 97
            <= digest[i] <= 102 by {
            assert(crate::wal::record::is_hex(line[i + line.len() - 64]));
        }
        assert(json + seq![124u8] + digest =~= line);
        assert(is_marked(line, json, digest));
    }
}

/// Whether `file` is the run's name for a segment: its id, `-`, `digits`, and `.arrow`.
pub open spec fn is_numbered(load_id: Seq<char>, file: Seq<char>, digits: Seq<char>) -> bool {
    &&& digits.len() >= 6
    &&& forall|i: int| 0 <= i < digits.len() ==> '0' <= #[trigger] digits[i] <= '9'
    &&& file == load_id + seq!['-'] + digits + seq!['.', 'a', 'r', 'r', 'o', 'w']
}

/// Whether `file` stays in its directory: it holds no separator, and never two dots in a row.
pub open spec fn stays(file: Seq<char>) -> bool {
    &&& !file.contains('/')
    &&& !file.contains('\\')
    &&& forall|i: int| 0 <= i < file.len() - 1 && #[trigger] file[i] == '.' ==> file[i + 1] != '.'
}

proof fn lemma_stays(file: Seq<char>)
    ensures
        stays(file) == !has_path_punctuation(file),
{
    if stays(file) {
        assert forall|i: int| 0 <= i < file.len() implies !#[trigger] punctuated_at(file, i) by {
            assert(file.contains(file[i]));
        }
    } else {
        if file.contains('/') {
            let i = choose|i: int| 0 <= i < file.len() && file[i] == '/';
            assert(punctuated_at(file, i));
        } else if file.contains('\\') {
            let i = choose|i: int| 0 <= i < file.len() && file[i] == '\\';
            assert(punctuated_at(file, i));
        } else {
            let i = choose|i: int|
                0 <= i < file.len() - 1 && #[trigger] file[i] == '.' && file[i + 1] == '.';
            assert(punctuated_at(file, i));
        }
    }
}

/// A segment's name passes exactly where it stays in its directory and is the run's id with six
/// digits or more; one that does not stay is refused for that first.
pub proof fn law_only_the_runs_own_names_pass(load_id: String, file: String)
    ensures
        name_fault(load_id, file) is None <==> stays(file@) && exists|digits: Seq<char>|
            #[trigger] is_numbered(load_id@, file@, digits),
        name_fault(load_id, file) == Some(NameFault::Punctuation { file }) <==> !stays(file@),
        name_fault(load_id, file) is Some && stays(file@) ==> name_fault(load_id, file) == Some(
            NameFault::Shape { file, load_id },
        ),
{
    lemma_stays(file@);
    let n = load_id@.len() as int;
    if writer_shaped(load_id@, file@) {
        let digits = file@.subrange(n + 1, file@.len() - 6);
        let tail = file@.skip(file@.len() - 6);
        assert(tail == arrow_suffix());
        assert forall|i: int| 0 <= i < file@.len() implies file@[i] == (load_id@ + seq!['-']
            + digits + seq!['.', 'a', 'r', 'r', 'o', 'w'])[i] by {
            if i < n {
                assert(file@[i] == file@.take(n)[i]);
            } else if i >= file@.len() - 6 {
                assert(file@[i] == tail[i - (file@.len() - 6)]);
            }
        }
        assert(file@ =~= load_id@ + seq!['-'] + digits + seq!['.', 'a', 'r', 'r', 'o', 'w']);
        assert(is_numbered(load_id@, file@, digits));
    }
    if exists|digits: Seq<char>| #[trigger] is_numbered(load_id@, file@, digits) {
        let digits = choose|digits: Seq<char>| #[trigger] is_numbered(load_id@, file@, digits);
        assert(file@.take(n) =~= load_id@);
        assert(file@.skip(file@.len() - 6) =~= arrow_suffix());
        assert forall|i: int| n < i < file@.len() - 6 implies crate::wal::record::is_digit(
            #[trigger] file@[i],
        ) by {
            assert(file@[i] == digits[i - n - 1]);
        }
    }
}

/// Whether the line at `start` ends at `end`: at the first line end, or with the bytes.
pub open spec fn ends_at(bytes: Seq<u8>, start: int, end: int) -> bool {
    &&& 0 <= start <= end <= bytes.len()
    &&& end < bytes.len() ==> bytes[end] == 10u8
    &&& forall|i: int| start <= i < end ==> #[trigger] bytes[i] != 10u8
}

/// How many bytes the line from `start` to `end` holds: a carriage return before its line end is
/// none of them.
pub open spec fn line_length(bytes: Seq<u8>, start: int, end: int) -> int {
    if end < bytes.len() && end > start && bytes[end - 1] == 13u8 {
        end - start - 1
    } else {
        end - start
    }
}

proof fn lemma_read_past(bytes: Seq<u8>, start: int, at: int, end: int)
    requires
        ends_at(bytes, start, end),
        start <= at <= end,
        at <= start + MAX_MANIFEST_LINE_BYTES + 2,
    ensures
        end < bytes.len() && end - start < MAX_MANIFEST_LINE_BYTES + 2 ==> read_to(bytes, start, at)
            == end + 1,
        end == bytes.len() && end - start < MAX_MANIFEST_LINE_BYTES + 2 ==> read_to(
            bytes,
            start,
            at,
        ) == end,
        end - start >= MAX_MANIFEST_LINE_BYTES + 2 ==> read_to(bytes, start, at) == start
            + MAX_MANIFEST_LINE_BYTES + 2,
    decreases end - at,
{
    if at < end && at < start + MAX_MANIFEST_LINE_BYTES + 2 {
        assert(bytes[at] != 10u8);
        lemma_read_past(bytes, start, at + 1, end);
    }
}

/// A line is read to its own end: it holds all bytes before its line end, without the carriage
/// return that may stand there, and the next follows behind. It is too long by exactly the bytes
/// it holds.
pub proof fn law_lines_are_read_to_their_ends(bytes: Seq<u8>, start: int, end: int)
    requires
        ends_at(bytes, start, end),
        start < bytes.len(),
    ensures
        content_at(bytes, start).len() > MAX_MANIFEST_LINE_BYTES <==> line_length(bytes, start, end)
            > MAX_MANIFEST_LINE_BYTES,
        line_length(bytes, start, end) <= MAX_MANIFEST_LINE_BYTES ==> {
            &&& content_at(bytes, start) == bytes.subrange(
                start,
                start + line_length(bytes, start, end),
            )
            &&& read_to(bytes, start, start) == if end < bytes.len() {
                end + 1
            } else {
                end
            }
            &&& terminator_of(read_bytes(bytes, start)) == read_to(bytes, start, start) - start
                - line_length(bytes, start, end)
        },
{
    lemma_read_past(bytes, start, start, end);
    lemma_read_to(bytes, start, start);
    let read = read_bytes(bytes, start);
    let next = read_to(bytes, start, start);
    assert(read.len() == next - start);
    assert(read.last() == bytes[next - 1]);
    if end - start < MAX_MANIFEST_LINE_BYTES + 2 {
        if end < bytes.len() {
            if end > start {
                assert(read[read.len() - 2] == bytes[end - 1]);
            }
        } else {
            assert(bytes[next - 1] != 10u8);
        }
        assert(content_at(bytes, start) =~= bytes.subrange(
            start,
            start + line_length(bytes, start, end),
        ));
    } else {
        assert(bytes[next - 1] != 10u8);
    }
}

/// The bytes of a line whose text and terminator's length are these.
pub open spec fn line_bytes(line: (Seq<char>, int)) -> Seq<u8> {
    encode_utf8(line.0) + if line.1 == 0 {
        Seq::<u8>::empty()
    } else if line.1 == 1 {
        seq![10u8]
    } else {
        seq![13u8, 10u8]
    }
}

/// The bytes of `lines`, one behind the other.
pub open spec fn all_bytes(lines: Seq<(Seq<char>, int)>) -> Seq<u8>
    decreases lines.len(),
{
    if lines.len() == 0 {
        Seq::empty()
    } else {
        line_bytes(lines[0]) + all_bytes(lines.skip(1))
    }
}

/// Whether reading `bytes` may stop at `stop` for `fault`, where its reader `failed` behind them.
pub open spec fn stops_for(
    bytes: Seq<u8>,
    stop: int,
    budget: u64,
    failed: Option<Seq<char>>,
    fault: Option<FaultView>,
) -> bool {
    match fault {
        None => stop == bytes.len() && failed is None,
        Some(FaultView::Read(error)) => {
            &&& failed == Some(error)
            &&& forall|i: int| stop <= i < bytes.len() ==> #[trigger] bytes[i] != 10u8
        },
        Some(FaultView::OverCap) => stop < bytes.len() && content_at(bytes, stop).len()
            > MAX_MANIFEST_LINE_BYTES,
        Some(FaultView::NotUtf8(error)) => stop < bytes.len() && !valid_utf8(
            content_at(bytes, stop),
        ) && error == utf8_fault(content_at(bytes, stop)),
        Some(FaultView::OverBudget(over)) => stop < bytes.len() && over == budget && read_to(
            bytes,
            stop,
            stop,
        ) > budget,
    }
}

proof fn lemma_runs_out(bytes: Seq<u8>, start: int, at: int)
    requires
        0 <= start <= at <= bytes.len(),
        read_to(bytes, start, at) >= bytes.len(),
        at < bytes.len() ==> bytes.last() != 10u8,
    ensures
        forall|i: int|
            at <= i < bytes.len() && i < start + MAX_MANIFEST_LINE_BYTES + 2
                ==> #[trigger] bytes[i] != 10u8,
    decreases bytes.len() - at,
{
    if at < bytes.len() && at < start + MAX_MANIFEST_LINE_BYTES + 2 {
        if bytes[at] == 10u8 {
            assert(at + 1 >= bytes.len());
        } else {
            lemma_runs_out(bytes, start, at + 1);
        }
    }
}

proof fn lemma_parted(
    bytes: Seq<u8>,
    start: int,
    budget: u64,
    failed: Option<Seq<char>>,
)
    requires
        0 <= start <= bytes.len(),
        start <= budget || start == 0,
    ensures
        ({
            let read = manifest_lines(bytes, start, start, budget, failed);
            let stop = start + all_bytes(read.0).len();
            &&& stop <= bytes.len()
            &&& stop <= budget || stop == 0
            &&& all_bytes(read.0) == bytes.subrange(start, stop)
            &&& stops_for(bytes, stop, budget, failed, read.1)
        }),
    decreases bytes.len() - start,
{
    let read = manifest_lines(bytes, start, start, budget, failed);
    let next = read_to(bytes, start, start);
    let content = content_at(bytes, start);
    lemma_read_to(bytes, start, start);
    if read.0.len() == 0 {
        assert(all_bytes(read.0) =~= bytes.subrange(start, start));
        if failed is Some && crate::wal::lines::runs_out(bytes, start) {
            lemma_runs_out(bytes, start, start);
        }
    } else {
        let rest = manifest_lines(bytes, next, next, budget, failed);
        lemma_parted(bytes, next, budget, failed);
        decode_utf8_encode_utf8(content);
        assert(read.0.skip(1) =~= rest.0);
        let whole = read_bytes(bytes, start);
        assert(whole.last() == bytes[next - 1]);
        if terminator_of(whole) == 2 {
            assert(whole[whole.len() - 2] == bytes[next - 2]);
        }
        assert(line_bytes(read.0[0]) =~= whole);
        assert(all_bytes(read.0) =~= bytes.subrange(
            start,
            start + all_bytes(read.0).len(),
        ));
    }
}

/// What is read of a manifest is the manifest: its lines with their line ends, one behind the
/// other, are its bytes up to where reading stops, which are within the budget. It stops at the
/// end, or for a line that cannot be read, which stands right behind.
pub proof fn law_lines_are_the_bytes_of_the_manifest(
    bytes: Seq<u8>,
    budget: u64,
    failed: Option<Seq<char>>,
)
    ensures
        ({
            let read = manifest_lines(bytes, 0, 0, budget, failed);
            let stop = all_bytes(read.0).len() as int;
            &&& stop <= bytes.len()
            &&& stop <= budget
            &&& all_bytes(read.0) == bytes.take(stop)
            &&& stops_for(bytes, stop, budget, failed, read.1)
        }),
{
    lemma_parted(bytes, 0, budget, failed);
    let read = manifest_lines(bytes, 0, 0, budget, failed);
    let stop = all_bytes(read.0).len() as int;
    assert(bytes.subrange(0, stop) =~= bytes.take(stop));
}

/// Whether the line at `i` is blank, or is verified and decodes.
pub open spec fn is_sound(
    lines: Seq<ReadLine>,
    decoded: Seq<Result<WalRecord, String>>,
    i: int,
) -> bool {
    is_blank(lines[i].text@) || frame_spec(encode_utf8(lines[i].text@)) == Frame::Verified
        && decoded[i] is Ok
}

/// Whether every line before `n` is sound.
pub open spec fn are_sound(
    lines: Seq<ReadLine>,
    decoded: Seq<Result<WalRecord, String>>,
    n: int,
) -> bool {
    forall|i: int| 0 <= i < n ==> #[trigger] is_sound(lines, decoded, i)
}

/// What the lines before `n` that are not blank decode as, in order.
pub open spec fn decoded_to(
    lines: Seq<ReadLine>,
    decoded: Seq<Result<WalRecord, String>>,
    n: int,
) -> Seq<WalRecord>
    decreases n,
{
    if n <= 0 {
        Seq::empty()
    } else if is_blank(lines[n - 1].text@) {
        decoded_to(lines, decoded, n - 1)
    } else {
        decoded_to(lines, decoded, n - 1).push(decoded[n - 1]->Ok_0)
    }
}

/// Whether the line at `i` has no trailer.
pub open spec fn is_bare(lines: Seq<ReadLine>, i: int) -> bool {
    !is_blank(lines[i].text@) && frame_spec(encode_utf8(lines[i].text@)) == Frame::Untrailered
}

/// Whether `decoded` is a header of a version that is not this one.
pub open spec fn is_other_version(decoded: Result<WalRecord, String>) -> bool {
    match decoded {
        Ok(WalRecord::Run { format_version, .. }) => format_version != WAL_FORMAT_VERSION,
        _ => false,
    }
}

/// Whether collecting the lines' records may come to `outcome` at the line `i`, all before it being
/// sound.
pub open spec fn comes_to(
    lines: Seq<ReadLine>,
    fault: Option<ReadFault>,
    decoded: Seq<Result<WalRecord, String>>,
    i: int,
    outcome: Result<Seq<WalRecord>, ManifestFault>,
) -> bool {
    let records = decoded_to(lines, decoded, i);
    &&& 0 <= i <= lines.len()
    &&& are_sound(lines, decoded, i)
    &&& match outcome {
        Ok(collected) => {
            ||| i == lines.len() && fault is None && collected == records
            ||| i == lines.len() - 1 && fault is None && is_bare(lines, i) && !is_other_version(
                decoded[i],
            ) && collected == records
            ||| i < lines.len() && is_bare(lines, i) && is_other_version(decoded[i]) && collected
                == records.push(decoded[i]->Ok_0)
        },
        Err(ManifestFault::Corrupt(Corruption::Checksum)) => i < lines.len() && !is_blank(
            lines[i].text@,
        ) && frame_spec(encode_utf8(lines[i].text@)) == Frame::Mismatched,
        Err(ManifestFault::Corrupt(Corruption::Undecodable { error })) => i < lines.len()
            && !is_blank(lines[i].text@) && frame_spec(encode_utf8(lines[i].text@))
            == Frame::Verified && decoded[i] == Err::<WalRecord, String>(error),
        Err(ManifestFault::MidManifest) => i < lines.len() && is_bare(lines, i)
            && !is_other_version(decoded[i]) && (i < lines.len() - 1 || fault
            matches Some(ReadFault::OverBudget { .. })),
        Err(ManifestFault::Read(of)) => {
            &&& fault == Some(of)
            &&& i == lines.len() || i == lines.len() - 1 && is_bare(lines, i) && !is_other_version(
                decoded[i],
            ) && of is Line
        },
    }
}

proof fn lemma_comes_to(
    lines: Seq<ReadLine>,
    fault: Option<ReadFault>,
    decoded: Seq<Result<WalRecord, String>>,
    i: int,
)
    requires
        lines.len() == decoded.len(),
        0 <= i <= lines.len(),
        are_sound(lines, decoded, i),
    ensures
        exists|n: int| #[trigger]
            comes_to(
                lines,
                fault,
                decoded,
                n,
                records_from(lines, fault, decoded, i, decoded_to(lines, decoded, i)),
            ),
    decreases lines.len() - i,
{
    let outcome = records_from(lines, fault, decoded, i, decoded_to(lines, decoded, i));
    if i < lines.len() {
        if is_sound(lines, decoded, i) {
            assert(are_sound(lines, decoded, i + 1));
            lemma_comes_to(lines, fault, decoded, i + 1);
            assert(outcome == records_from(
                lines,
                fault,
                decoded,
                i + 1,
                decoded_to(lines, decoded, i + 1),
            ));
        } else {
            assert(comes_to(lines, fault, decoded, i, outcome));
        }
    } else {
        assert(comes_to(lines, fault, decoded, i, outcome));
    }
}

/// The records of a manifest are what its lines decode as, each of them verified, in order and
/// without those that are blank. A last line without a trailer is left out; any other is damage,
/// but for a header of another version, which ends the manifest. The first line that is no record
/// decides.
pub proof fn law_records_are_what_verified_lines_decode_as(
    lines: Seq<ReadLine>,
    fault: Option<ReadFault>,
    decoded: Seq<Result<WalRecord, String>>,
)
    requires
        lines.len() == decoded.len(),
    ensures
        exists|n: int| #[trigger]
            comes_to(
                lines,
                fault,
                decoded,
                n,
                records_from(lines, fault, decoded, 0, Seq::empty()),
            ),
{
    assert(decoded_to(lines, decoded, 0) =~= Seq::empty());
    lemma_comes_to(lines, fault, decoded, 0);
}

proof fn lemma_tail_starts(before: Seq<u8>, tail: Seq<u8>, at: int)
    requires
        before.len() == 0 || before.last() == 10u8,
        forall|i: int| 0 <= i < tail.len() ==> #[trigger] tail[i] != 10u8,
        before.len() <= at <= before.len() + tail.len(),
    ensures
        tail_start(before + tail, at) == before.len(),
    decreases at,
{
    let bytes = before + tail;
    if at > before.len() {
        assert(bytes[at - 1] == tail[at - 1 - before.len()]);
        lemma_tail_starts(before, tail, at - 1);
    } else if at > 0 {
        assert(bytes[at - 1] == before.last());
    }
}

/// A manifest whose last line lacks its line end gets one where that line is a whole record, and
/// loses the line where it is none. All that stands before it stays.
pub proof fn law_whole_last_records_are_kept(
    before: Seq<u8>,
    tail: Seq<u8>,
    decoded: Result<WalRecord, String>,
)
    requires
        before.len() == 0 || before.last() == 10u8,
        tail.len() > 0,
        before.len() + tail.len() <= usize::MAX,
        forall|i: int| 0 <= i < tail.len() ==> #[trigger] tail[i] != 10u8,
    ensures
        valid_utf8(tail) && frame_spec(tail) == Frame::Verified && decoded is Ok ==> fixed(
            before + tail,
            tail_fix(before + tail, decoded),
        ) == before + tail + seq![10u8],
        !(valid_utf8(tail) && frame_spec(tail) == Frame::Verified && decoded is Ok) ==> fixed(
            before + tail,
            tail_fix(before + tail, decoded),
        ) == before,
{
    let bytes = before + tail;
    lemma_tail_starts(before, tail, bytes.len() as int);
    assert(bytes.last() == tail.last());
    assert(tail[tail.len() - 1] != 10u8);
    assert(bytes.skip(before.len() as int) =~= tail);
    assert(bytes.take(before.len() as int) =~= before);
    assert(bytes.push(10u8) =~= before + tail + seq![10u8]);
}

/// A manifest that ends in a line end, or is empty, is left as it is.
pub proof fn law_terminated_manifests_are_kept(bytes: Seq<u8>, decoded: Result<WalRecord, String>)
    requires
        bytes.len() == 0 || bytes.last() == 10u8,
    ensures
        fixed(bytes, tail_fix(bytes, decoded)) == bytes,
{
}

/// Every segment is made durable, in the order they were written, before the directory that names
/// it, and that before the manifest; nothing else is.
pub proof fn law_segments_are_durable_before_they_are_named(files: Seq<String>)
    ensures
        sync_steps(files).len() == files.len() + 2,
        forall|i: int|
            0 <= i < files.len() ==> #[trigger] sync_steps(files)[i] == SyncStep::Segment(files[i]),
        sync_steps(files)[files.len() as int] == SyncStep::Directory,
        sync_steps(files)[files.len() as int + 1] == SyncStep::Manifest,
{
}

} // verus!
