//! The live run's side of the log: the lines it appends, the segments it names, and the three
//! steps of a commit: make the span durable, commit at the destination, mark and reclaim.

use crate::text::{dec, push_decimal};
use crate::wal::lines::{content_at, read_bytes, read_to, terminator_of};
use crate::wal::record::{
    classify, decode_line, encode_line, encodes, frame_spec, is_hex, segment_file_name,
    segment_name, ManifestLine, WalRecord, MAX_MANIFEST_LINE_BYTES, TRAILER_LEN, WAL_FORMAT_VERSION,
};
use vstd::prelude::*;
use vstd::slice::slice_subrange;
use vstd::string::*;
use vstd::utf8::*;

verus! {

/// Why the writer refuses.
#[derive(Debug)]
pub enum WriteFault {
    /// A manifest is already at this path.
    Residue { path: String },
    /// A line of this many bytes is over the cap.
    OverCap { len: usize },
}

impl WriteFault {
    /// The fault in words.
    pub open spec fn text(self) -> Seq<char> {
        match self {
            WriteFault::Residue { path } => "a WAL manifest already exists at `"@ + path@
                + "` — a fresh run opens over a clean directory (recovery resolves and clears a prior span first), so surviving residue means the previous span was never resolved; refusing to write over it"@,
            WriteFault::OverCap { len } => "a "@ + dec(len as nat)
                + "-byte manifest record exceeds the "@ + dec(MAX_MANIFEST_LINE_BYTES as nat)
                + "-byte line cap recovery enforces — refusing to write a WAL line this engine could never scan back (the record carries an oversized cursor or schema)"@,
        }
    }

    /// The fault in words.
    pub fn message(&self) -> (message: String)
        ensures
            message@ == self.text(),
    {
        let mut message = String::new();
        match self {
            WriteFault::Residue { path } => {
                message.append("a WAL manifest already exists at `");
                message.append(path.as_str());
                message.append("` — a fresh run opens over a clean directory (recovery resolves and clears a prior span first), so surviving residue means the previous span was never resolved; refusing to write over it");
            },
            WriteFault::OverCap { len } => {
                message.append("a ");
                push_decimal(&mut message, *len as u128);
                message.append("-byte manifest record exceeds the ");
                push_decimal(&mut message, MAX_MANIFEST_LINE_BYTES as u128);
                message.append("-byte line cap recovery enforces — refusing to write a WAL line this engine could never scan back (the record carries an oversized cursor or schema)");
            },
        }
        proof {
            assert(message@ =~= self.text());
        }
        message
    }
}

/// `context` and `error`, as the log's errors are worded.
pub fn wal_err(context: &str, error: &str) -> (message: String)
    ensures
        message@ == context@ + ": "@ + error@,
{
    let mut message = String::new();
    message.append(context);
    message.append(": ");
    message.append(error);
    proof {
        assert(message@ =~= context@ + ": "@ + error@);
    }
    message
}

/// The bytes appended for a record whose JSON is `json`: its line and a line end, where the line
/// is within the cap recovery holds lines to.
pub fn append(json: Vec<u8>) -> (appended: Result<Vec<u8>, WriteFault>)
    ensures
        match appended {
            Ok(bytes) => {
                &&& json@.len() + TRAILER_LEN <= MAX_MANIFEST_LINE_BYTES
                &&& bytes@.len() == json@.len() + TRAILER_LEN + 1
                &&& bytes@.last() == 10u8
                &&& encodes(bytes@.drop_last(), json@)
            },
            Err(fault) => json@.len() + TRAILER_LEN > MAX_MANIFEST_LINE_BYTES && fault == (
            WriteFault::OverCap { len: (json@.len() + TRAILER_LEN) as usize }),
        },
{
    let ghost of = json@;
    let mut line: Vec<u8> = encode_line(json);
    if line.len() > MAX_MANIFEST_LINE_BYTES {
        return Err(WriteFault::OverCap { len: line.len() });
    }
    let ghost whole = line@;
    line.push(10u8);
    proof {
        assert(line@.drop_last() =~= whole);
    }
    Ok(line)
}

/// How the manifest is opened.
#[derive(Clone, Copy, Debug, PartialEq, Eq, Structural)]
pub enum OpenMode {
    /// It is created, and must not be there.
    Fresh,
    /// It is appended to, once its tail is reconciled.
    Append,
}

/// What a vouched manifest's tail needs before anything is appended.
#[derive(Clone, Copy, Debug, PartialEq, Eq, Structural)]
pub enum TailFix {
    /// Nothing: it is empty or ends in a line end.
    Nothing,
    /// A line end: its last line is a whole record.
    Terminate,
    /// To be cut to this length: its last line is torn.
    Truncate(usize),
}

/// Where the last line of `bytes` begins, looking back from `at`: behind the last line end.
pub open spec fn tail_start(bytes: Seq<u8>, at: int) -> int
    decreases at,
{
    if at <= 0 {
        0
    } else if bytes[at - 1] == 10u8 {
        at
    } else {
        tail_start(bytes, at - 1)
    }
}

/// Whether `tail` is a whole record, when its JSON decodes as `decoded` says.
pub open spec fn is_whole_record(tail: Seq<u8>, decoded: Result<WalRecord, String>) -> bool {
    valid_utf8(tail) && classify(frame_spec(tail), decoded) is Record
}

/// What the tail of the manifest `bytes` needs, when its last line's JSON decodes as `decoded`
/// says.
pub open spec fn tail_fix(bytes: Seq<u8>, decoded: Result<WalRecord, String>) -> TailFix {
    if bytes.len() == 0 || bytes.last() == 10u8 {
        TailFix::Nothing
    } else {
        let start = tail_start(bytes, bytes.len() as int);
        if is_whole_record(bytes.skip(start), decoded) {
            TailFix::Terminate
        } else {
            TailFix::Truncate(start as usize)
        }
    }
}

/// `bytes` once `fix` is made.
pub open spec fn fixed(bytes: Seq<u8>, fix: TailFix) -> Seq<u8> {
    match fix {
        TailFix::Nothing => bytes,
        TailFix::Terminate => bytes.push(10u8),
        TailFix::Truncate(len) => bytes.take(len as int),
    }
}

/// `std::str::from_utf8`: whether the bytes are UTF-8.
#[verifier::external_body]
fn is_utf8(bytes: &[u8]) -> (is: bool)
    ensures
        is == valid_utf8(bytes@),
{
    std::str::from_utf8(bytes).is_ok()
}

proof fn lemma_tail_start(bytes: Seq<u8>, at: int)
    requires
        0 <= at <= bytes.len(),
    ensures
        0 <= tail_start(bytes, at) <= at,
        tail_start(bytes, at) > 0 ==> bytes[tail_start(bytes, at) - 1] == 10u8,
        forall|i: int| tail_start(bytes, at) <= i < at ==> #[trigger] bytes[i] != 10u8,
    decreases at,
{
    if at > 0 && bytes[at - 1] != 10u8 {
        lemma_tail_start(bytes, at - 1);
    }
}

/// Where the last line of `bytes` begins.
pub fn last_line(bytes: &[u8]) -> (start: usize)
    ensures
        start == tail_start(bytes@, bytes@.len() as int),
        start <= bytes@.len(),
{
    let mut at: usize = bytes.len();
    while at > 0
        invariant
            at <= bytes@.len(),
            tail_start(bytes@, bytes@.len() as int) == tail_start(bytes@, at as int),
        decreases at,
    {
        if bytes[at - 1] == 10u8 {
            return at;
        }
        at = at - 1;
    }
    at
}

/// What the tail of a vouched manifest needs before a header may follow it: one written straight
/// behind an unterminated line would become one line with it, which the next scan reads as
/// damage. `decoded` is what the JSON of the last line decodes as.
pub fn reconcile_unterminated_tail(bytes: &[u8], decoded: Result<WalRecord, String>) -> (fix: TailFix)
    ensures
        fix == tail_fix(bytes@, decoded),
{
    if bytes.len() == 0 || bytes[bytes.len() - 1] == 10u8 {
        return TailFix::Nothing;
    }
    let start: usize = last_line(bytes);
    let tail: &[u8] = slice_subrange(bytes, start, bytes.len());
    assert(tail@ =~= bytes@.skip(start as int));
    if is_utf8(tail) {
        if let ManifestLine::Record(_) = decode_line(tail, decoded) {
            return TailFix::Terminate;
        }
    }
    TailFix::Truncate(start)
}

/// A reconciled manifest is empty or ends in a line end, and differs from what it was by the line
/// end its last record lacked, or by a last line that was none.
pub proof fn law_reconciled_tails_are_terminated(
    bytes: Seq<u8>,
    decoded: Result<WalRecord, String>,
)
    requires
        bytes.len() <= usize::MAX,
    ensures
        ({
            let after = fixed(bytes, tail_fix(bytes, decoded));
            (after.len() == 0 || after.last() == 10u8) && (after == bytes || after == bytes.push(
                10u8,
            ) || after == bytes.take(after.len() as int))
        }),
{
    lemma_tail_start(bytes, bytes.len() as int);
    let start = tail_start(bytes, bytes.len() as int);
    if bytes.len() > 0 && bytes.last() != 10u8 {
        let after = fixed(bytes, tail_fix(bytes, decoded));
        if tail_fix(bytes, decoded) is Truncate {
            assert(after =~= bytes.take(start));
        }
    }
}

/// A line the writer appended, behind anything and before anything, is what a scan reads there.
pub proof fn law_appended_lines_read_back(before: Seq<u8>, json: Seq<u8>, line: Seq<u8>, rest: Seq<u8>)
    requires
        json.len() > 0,
        encodes(line, json),
        line.len() <= MAX_MANIFEST_LINE_BYTES,
        forall|i: int| 0 <= i < json.len() ==> #[trigger] json[i] != 10u8,
    ensures
        content_at(before + line.push(10u8) + rest, before.len() as int) == line,
        read_to(
            before + line.push(10u8) + rest,
            before.len() as int,
            before.len() as int,
        ) == before.len() + line.len() + 1,
{
    let bytes = before + line.push(10u8) + rest;
    let start = before.len() as int;
    let end = start + line.len();
    assert forall|i: int| start <= i < end implies #[trigger] bytes[i] != 10u8 by {
        assert(bytes[i] == line[i - start]);
        if i - start < json.len() {
            assert(line[i - start] == json[i - start]);
        } else if i - start == json.len() {
            assert(line[i - start] == 124u8);
        } else {
            assert(is_hex(line[i - start]));
        }
    }
    assert(bytes[end] == 10u8);
    lemma_reads_to(bytes, start, start, end);
    let read = read_bytes(bytes, start);
    assert(read =~= line.push(10u8));
    assert(is_hex(line[line.len() - 1]));
    assert(read[read.len() - 2] == line[line.len() - 1]);
    assert(terminator_of(read) == 1);
    assert(content_at(bytes, start) =~= line);
}

proof fn lemma_reads_to(bytes: Seq<u8>, start: int, at: int, end: int)
    requires
        0 <= start <= at <= end < bytes.len(),
        end - start <= MAX_MANIFEST_LINE_BYTES,
        bytes[end] == 10u8,
        forall|i: int| at <= i < end ==> #[trigger] bytes[i] != 10u8,
    ensures
        read_to(bytes, start, at) == end + 1,
    decreases end - at,
{
    if at < end {
        lemma_reads_to(bytes, start, at + 1, end);
    }
}

/// One step of opening a log whose directory is its own.
#[derive(Clone, Copy, Debug, PartialEq, Eq, Structural)]
pub enum OpenStep {
    /// The rules an earlier run left beside the manifest are removed, where there are any.
    RemoveSidecar,
    /// The run's rules are written beside the manifest, where nothing is.
    WriteSidecar,
    /// The manifest is opened.
    OpenManifest(OpenMode),
    /// The manifest's tail is reconciled.
    ReconcileTail,
    /// The run's header is appended.
    AppendHeader,
}

/// The steps that open a log whose manifest is opened as `mode` says, in order: the rules, then the
/// manifest, and last the header its records follow.
pub open spec fn opening(mode: OpenMode) -> Seq<OpenStep> {
    let rules = seq![OpenStep::RemoveSidecar, OpenStep::WriteSidecar, OpenStep::OpenManifest(mode)];
    match mode {
        OpenMode::Fresh => rules.push(OpenStep::AppendHeader),
        OpenMode::Append => rules.push(OpenStep::ReconcileTail).push(OpenStep::AppendHeader),
    }
}

/// The steps that open a log whose manifest is opened as `mode` says, in order.
///
/// The rules go down before the manifest is created, so that a manifest is never without them: one
/// that is, recovery refuses.
pub fn open_steps(mode: OpenMode) -> (steps: Vec<OpenStep>)
    ensures
        steps@ == opening(mode),
{
    let mut steps: Vec<OpenStep> = Vec::new();
    steps.push(OpenStep::RemoveSidecar);
    steps.push(OpenStep::WriteSidecar);
    steps.push(OpenStep::OpenManifest(mode));
    if mode == OpenMode::Append {
        steps.push(OpenStep::ReconcileTail);
    }
    steps.push(OpenStep::AppendHeader);
    assert(steps@ =~= opening(mode));
    steps
}

/// A manifest is never without the rules it is written under: they are written, once and for all,
/// before the manifest is opened. Nothing is appended before an unterminated tail is reconciled,
/// and the header comes last.
pub proof fn law_the_rules_precede_the_manifest(mode: OpenMode, i: int)
    requires
        0 <= i < opening(mode).len(),
    ensures
        opening(mode)[i] is OpenManifest ==> i == 2 && opening(mode)[1] == OpenStep::WriteSidecar,
        opening(mode)[i] == OpenStep::RemoveSidecar ==> i == 0,
        opening(mode)[i] == OpenStep::WriteSidecar ==> i == 1,
        opening(mode)[i] == OpenStep::AppendHeader ==> i == opening(mode).len() - 1,
        mode == OpenMode::Append ==> opening(mode)[3] == OpenStep::ReconcileTail,
{
}

/// One step of making a span durable.
#[derive(Debug)]
pub enum SyncStep {
    /// The segment in this file.
    Segment(String),
    /// The directory, so that the names in it last.
    Directory,
    /// The manifest, which names the rest.
    Manifest,
}

/// The steps that make the segments `files` durable, in order: each segment, the directory, and
/// last the manifest, which is only worth keeping with what it names.
pub open spec fn sync_steps(files: Seq<String>) -> Seq<SyncStep> {
    files.map_values(|file: String| SyncStep::Segment(file)).push(SyncStep::Directory).push(
        SyncStep::Manifest,
    )
}

/// A live run's log: what it has written and not yet made durable or reclaimed.
#[derive(Debug)]
pub struct Wal {
    load_id: String,
    segment_seq: u64,
    pending_sync: Vec<String>,
    pending_gc: Vec<String>,
}

impl Wal {
    /// The run.
    pub closed spec fn load(&self) -> Seq<char> {
        self.load_id@
    }

    /// The number of the next segment.
    pub closed spec fn next_seq(&self) -> u64 {
        self.segment_seq
    }

    /// The segments written since the last barrier.
    pub closed spec fn unsynced(&self) -> Seq<String> {
        self.pending_sync@
    }

    /// The segments of the uncommitted span.
    pub closed spec fn uncommitted(&self) -> Seq<String> {
        self.pending_gc@
    }

    /// Whether naming the segment `file` leaves the log as `after`: its number is spent.
    pub open spec fn begins(&self, file: Seq<char>, after: &Wal) -> bool {
        &&& file == segment_name(self.load(), self.next_seq() as nat)
        &&& after.next_seq() == self.next_seq() + 1
        &&& after.load() == self.load()
        &&& after.unsynced() == self.unsynced()
        &&& after.uncommitted() == self.uncommitted()
    }

    /// Whether noting that the segment `file` is written leaves the log as `after`: the segment is
    /// neither durable nor committed.
    pub open spec fn finishes(&self, file: String, after: &Wal) -> bool {
        &&& after.unsynced() == self.unsynced().push(file)
        &&& after.uncommitted() == self.uncommitted().push(file)
        &&& after.next_seq() == self.next_seq()
        &&& after.load() == self.load()
    }

    /// Whether beginning a commit asks for `steps` and leaves the log as `after`: nothing is left to
    /// be made durable.
    pub open spec fn syncs(&self, steps: Seq<SyncStep>, after: &Wal) -> bool {
        &&& steps == sync_steps(self.unsynced())
        &&& after.unsynced() == Seq::<String>::empty()
        &&& after.uncommitted() == self.uncommitted()
        &&& after.next_seq() == self.next_seq()
        &&& after.load() == self.load()
    }

    /// Whether reclaiming gives up `files` and leaves the log as `after`: all that is committed where
    /// the mark is `durable`, and nothing where it is not.
    pub open spec fn reclaims(&self, durable: bool, files: Seq<String>, after: &Wal) -> bool {
        &&& if durable {
            files == self.uncommitted() && after.uncommitted() == Seq::<String>::empty()
        } else {
            files == Seq::<String>::empty() && after.uncommitted() == self.uncommitted()
        }
        &&& after.unsynced() == self.unsynced()
        &&& after.next_seq() == self.next_seq()
        &&& after.load() == self.load()
    }

    /// Opens the log of the run `load_id` where a manifest is or is not at `path` already, and
    /// says how. A manifest that recovery left behind is refused, unless recovery vouches that it
    /// holds nothing to replay.
    pub fn open(load_id: &String, path: &str, manifest_exists: bool, vouched: bool) -> (opened: Result<
        (Wal, OpenMode),
        WriteFault,
    >)
        ensures
            match opened {
                Ok((wal, mode)) => {
                    &&& !manifest_exists || vouched
                    &&& mode == (if vouched {
                        OpenMode::Append
                    } else {
                        OpenMode::Fresh
                    })
                    &&& wal.load() == load_id@
                    &&& wal.next_seq() == 0
                    &&& wal.unsynced() == Seq::<String>::empty()
                    &&& wal.uncommitted() == Seq::<String>::empty()
                },
                Err(fault) => manifest_exists && !vouched && fault is Residue
                    && fault->Residue_path@ == path@,
            },
    {
        if manifest_exists && !vouched {
            return Err(WriteFault::Residue { path: path.to_owned() });
        }
        let wal = Wal {
            load_id: load_id.clone(),
            segment_seq: 0,
            pending_sync: Vec::new(),
            pending_gc: Vec::new(),
        };
        let mode: OpenMode = if vouched {
            OpenMode::Append
        } else {
            OpenMode::Fresh
        };
        Ok((wal, mode))
    }

    /// The header the run's records follow.
    pub fn header(&self, pipeline: &String) -> (header: WalRecord)
        ensures
            match header {
                WalRecord::Run { format_version, load_id, pipeline: of } => format_version
                    == WAL_FORMAT_VERSION && load_id@ == self.load() && of@ == pipeline@,
                _ => false,
            },
    {
        WalRecord::Run {
            format_version: WAL_FORMAT_VERSION,
            load_id: self.load_id.clone(),
            pipeline: pipeline.clone(),
        }
    }

    /// Whether another segment can be named.
    pub fn can_begin(&self) -> (can: bool)
        ensures
            can == (self.next_seq() < u64::MAX),
    {
        self.segment_seq < u64::MAX
    }

    /// Names the next segment. Its number is spent whether or not writing it succeeds, so no name
    /// is given twice.
    pub fn begin_segment(&mut self) -> (file: String)
        requires
            old(self).next_seq() < u64::MAX,
        ensures
            old(self).begins(file@, final(self)),
    {
        let file: String = segment_file_name(self.load_id.as_str(), self.segment_seq);
        self.segment_seq = self.segment_seq + 1;
        file
    }

    /// Notes that the segment `file`, holding `rows` rows of `table`, is written; the record that
    /// is then appended. The segment comes before the line that names it: replay follows lines,
    /// and an unnamed file is merely ignored.
    pub fn finish_segment(&mut self, table: &String, file: &String, rows: u64) -> (record: WalRecord)
        ensures
            match record {
                WalRecord::Segment { table: of, file: named, rows: counted } => of@ == table@
                    && named@ == file@ && counted == rows,
                _ => false,
            },
            old(self).finishes(*file, final(self)),
    {
        self.pending_sync.push(file.clone());
        self.pending_gc.push(file.clone());
        WalRecord::Segment { table: table.clone(), file: file.clone(), rows }
    }

    /// Begins a commit: the steps that make the span durable, whose segments are then no longer
    /// pending.
    pub fn sync_for_commit(&mut self) -> (steps: Vec<SyncStep>)
        ensures
            old(self).syncs(steps@, final(self)),
    {
        let mut steps: Vec<SyncStep> = Vec::new();
        let mut i: usize = 0;
        let ghost segments = self.pending_sync@.map_values(|file: String| SyncStep::Segment(file));
        while i < self.pending_sync.len()
            invariant
                i <= self.pending_sync@.len(),
                *self == *old(self),
                segments == self.pending_sync@.map_values(
                    |file: String| SyncStep::Segment(file),
                ),
                steps@ == segments.take(i as int),
            decreases self.pending_sync.len() - i,
        {
            steps.push(SyncStep::Segment(self.pending_sync[i].clone()));
            i = i + 1;
            proof {
                assert(steps@ =~= segments.take(i as int));
            }
        }
        proof {
            assert(segments.take(i as int) =~= segments);
        }
        steps.push(SyncStep::Directory);
        steps.push(SyncStep::Manifest);
        self.pending_sync = Vec::new();
        steps
    }

    /// Ends a commit the destination acknowledged as `commit_seq`: the record that marks it.
    pub fn mark_committed(&self, commit_seq: u64) -> (record: WalRecord)
        ensures
            record == (WalRecord::Committed { commit_seq }),
    {
        WalRecord::Committed { commit_seq }
    }

    /// The segments that may be removed once the mark is durable; where it is not, `durable` is
    /// false and they stay for a later try.
    pub fn reclaim(&mut self, durable: bool) -> (files: Vec<String>)
        ensures
            old(self).reclaims(durable, files@, final(self)),
    {
        let mut files: Vec<String> = Vec::new();
        if durable {
            std::mem::swap(&mut files, &mut self.pending_gc);
        }
        files
    }
}

/// A segment that is written is made durable by the next commit, before the manifest is, and by no
/// later one; its file is given up once, and only once the mark of a commit is durable. Where it is
/// not, the file is given up with the next that is.
pub proof fn law_segments_are_kept_until_they_are_committed(
    before: &Wal,
    file: String,
    written: &Wal,
    steps: Seq<SyncStep>,
    synced: &Wal,
    kept: Seq<String>,
    tried: &Wal,
    given: Seq<String>,
    after: &Wal,
)
    requires
        before.finishes(file, written),
        written.syncs(steps, synced),
        synced.reclaims(false, kept, tried),
        tried.reclaims(true, given, after),
    ensures
        exists|i: int| 0 <= i < steps.len() - 2 && #[trigger] steps[i] == SyncStep::Segment(file),
        steps.last() == SyncStep::Manifest,
        forall|i: int|
            0 <= i < steps.len() ==> ((#[trigger] steps[i]) matches SyncStep::Segment(of)
                ==> before.unsynced().contains(of) || of == file),
        synced.unsynced().len() == 0,
        kept.len() == 0,
        given.contains(file),
        forall|of: String| #[trigger]
            given.contains(of) <==> before.uncommitted().contains(of) || of == file,
        after.uncommitted().len() == 0,
{
    let files = before.unsynced().push(file);
    let n = before.unsynced().len() as int;
    assert(steps[n] == SyncStep::Segment(files[n]));
    assert forall|i: int| 0 <= i < steps.len() implies ((
    #[trigger] steps[i]) matches SyncStep::Segment(of) ==> before.unsynced().contains(of) || of
        == file) by {
        if i < n {
            assert(steps[i] == SyncStep::Segment(files[i]));
            assert(before.unsynced()[i] == files[i]);
        }
    }
    let m = before.uncommitted().len() as int;
    assert(given[m] == file);
    assert forall|of: String| #[trigger] given.contains(of) <==> before.uncommitted().contains(of)
        || of == file by {
        if before.uncommitted().contains(of) {
            let i = choose|i: int| 0 <= i < m && before.uncommitted()[i] == of;
            assert(given[i] == of);
        }
        if given.contains(of) {
            let i = choose|i: int| 0 <= i < given.len() && given[i] == of;
            if i < m {
                assert(before.uncommitted()[i] == of);
            }
        }
    }
}

/// A log gives no name twice: a later segment's name is another, and each is the run's own.
pub proof fn law_no_segment_name_is_given_twice(
    before: &Wal,
    one: Seq<char>,
    between: &Wal,
    other: Seq<char>,
    after: &Wal,
)
    requires
        before.begins(one, between),
        between.begins(other, after),
    ensures
        one != other,
        one.len() > before.load().len(),
        one.take(before.load().len() as int) == before.load(),
        other.take(before.load().len() as int) == before.load(),
{
    crate::wal::record::law_segment_names_are_distinct(
        before.load(),
        before.next_seq() as nat,
        between.next_seq() as nat,
    );
    assert(one.take(before.load().len() as int) =~= before.load());
    assert(other.take(before.load().len() as int) =~= before.load());
}

} // verus!
