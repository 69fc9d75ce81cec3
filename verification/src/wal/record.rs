//! The manifest's vocabulary: one record per line, each line carrying a digest of its bytes, and
//! the names the writer gives segments.

use crate::text::{
    chars_of, debug_form, debug_text, lemma_padded_reads_back, padded_dec, push_padded,
};
use vstd::prelude::*;
use vstd::string::*;

verus! {

/// The format version this library writes and reads.
pub const WAL_FORMAT_VERSION: u32 = 1;

/// The checksum trailer's length: `|` and the digest's 64 hex characters.
pub const TRAILER_LEN: usize = 65;

/// The longest line the writer appends and the scan reads, its terminator aside.
pub const MAX_MANIFEST_LINE_BYTES: usize = 5242880;

/// The version a header that names none has.
pub fn initial_wal_version() -> (version: u32)
    ensures
        version == 1,
{
    1
}

/// A table's schema as a record carries it.
#[derive(Debug)]
pub struct RecordedSchema {
    pub table: String,
    /// The table this one's rows are children of, if any.
    pub parent: Option<String>,
    /// The root table a stream named as this table would have under the destination's rules.
    pub root: String,
    /// The rest of the schema, as it was recorded.
    pub body: String,
}

impl Clone for RecordedSchema {
    fn clone(&self) -> (copy: Self)
        ensures
            copy == *self,
    {
        RecordedSchema {
            table: self.table.clone(),
            parent: match &self.parent {
                Some(parent) => Some(parent.clone()),
                None => None,
            },
            root: self.root.clone(),
            body: self.body.clone(),
        }
    }
}

/// One manifest record. Order on disk is the replay order.
#[derive(Debug)]
pub enum WalRecord {
    /// The first record of each run.
    Run { format_version: u32, load_id: String, pipeline: String },
    /// A table's schema and how its stream writes, before its first batch.
    Delta { schema: RecordedSchema, delta: String, mode: String },
    /// A batch, in a segment of its own.
    Segment { table: String, file: String, rows: u64 },
    /// A stream's cursor, and the root table of the stream under the destination's rules.
    Checkpoint { stream: String, root: String, cursor: String },
    /// The destination holds everything before this.
    Committed { commit_seq: u64 },
}

impl Clone for WalRecord {
    fn clone(&self) -> (copy: Self)
        ensures
            copy == *self,
    {
        match self {
            WalRecord::Run { format_version, load_id, pipeline } => WalRecord::Run {
                format_version: *format_version,
                load_id: load_id.clone(),
                pipeline: pipeline.clone(),
            },
            WalRecord::Delta { schema, delta, mode } => WalRecord::Delta {
                schema: schema.clone(),
                delta: delta.clone(),
                mode: mode.clone(),
            },
            WalRecord::Segment { table, file, rows } => WalRecord::Segment {
                table: table.clone(),
                file: file.clone(),
                rows: *rows,
            },
            WalRecord::Checkpoint { stream, root, cursor } => WalRecord::Checkpoint {
                stream: stream.clone(),
                root: root.clone(),
                cursor: cursor.clone(),
            },
            WalRecord::Committed { commit_seq } => WalRecord::Committed { commit_seq: *commit_seq },
        }
    }
}

/// Whether `b` is a lower-case hex character.
pub open spec fn is_hex(b: u8) -> bool {
    48 <= b <= 57 || 97 <= b <= 102
}

/// The BLAKE3 digest of `bytes` in lower-case hex.
pub uninterp spec fn blake3_hex(bytes: Seq<u8>) -> Seq<u8>;

/// `blake3::hash`, rendered by `Hash::to_hex`: 64 lower-case hex characters that depend on the
/// bytes alone.
#[verifier::external_body]
pub(crate) fn digest_hex(bytes: &[u8]) -> (hex: Vec<u8>)
    ensures
        hex@ == blake3_hex(bytes@),
        hex@.len() == 64,
        forall|i: int| 0 <= i < 64 ==> is_hex(#[trigger] hex@[i]),
{
    blake3::hash(bytes).to_hex().as_bytes().to_vec()
}

/// The manifest line holding a record whose JSON is `json`: the JSON, `|`, and its digest.
pub open spec fn line_of(json: Seq<u8>) -> Seq<u8> {
    json + seq![124u8] + blake3_hex(json)
}

/// Whether `line` is the manifest line of `json`, whose trailer is complete.
pub open spec fn encodes(line: Seq<u8>, json: Seq<u8>) -> bool {
    &&& line == line_of(json)
    &&& line.len() == json.len() + TRAILER_LEN
    &&& json.len() > 0 ==> has_trailer(line)
}

/// Encodes one manifest line: the record's JSON, then `|`, then the digest of those bytes.
///
/// The digest detects damage; it does not authenticate. `|` needs no escaping, as the trailer has
/// a fixed width and is found from the line's end.
pub fn encode_line(json: Vec<u8>) -> (line: Vec<u8>)
    ensures
        encodes(line@, json@),
{
    let digest: Vec<u8> = digest_hex(json.as_slice());
    let ghost before = json@;
    let mut line: Vec<u8> = json;
    line.push(124u8);
    let mut at: usize = 0;
    while at < digest.len()
        invariant
            at <= digest@.len(),
            line@ == before + seq![124u8] + digest@.take(at as int),
        decreases digest.len() - at,
    {
        line.push(digest[at]);
        at = at + 1;
        proof {
            assert(line@ =~= before + seq![124u8] + digest@.take(at as int));
        }
    }
    proof {
        assert(digest@.take(at as int) =~= digest@);
        assert(line@ =~= line_of(before));
        let n = line@.len();
        assert forall|i: int| n - 64 <= i < n implies is_hex(#[trigger] line@[i]) by {
            assert(line@[i] == digest@[i - (n - 64)]);
        }
    }
    line
}

/// Whether `line` is something followed by what looks like a checksum trailer.
pub open spec fn has_trailer(line: Seq<u8>) -> bool {
    &&& line.len() > TRAILER_LEN
    &&& line[line.len() - TRAILER_LEN] == 124u8
    &&& forall|i: int| line.len() - 64 <= i < line.len() ==> is_hex(#[trigger] line[i])
}

/// The bytes a complete trailer is the digest of.
pub open spec fn trailed_json(line: Seq<u8>) -> Seq<u8> {
    line.take(line.len() - TRAILER_LEN)
}

/// The digest a complete trailer records.
pub open spec fn trailed_digest(line: Seq<u8>) -> Seq<u8> {
    line.skip(line.len() - 64)
}

/// What a line's checksum trailer says of it.
#[derive(Clone, Copy, Debug, PartialEq, Eq, Structural)]
pub enum Frame {
    /// The recorded digest is that of the bytes before the trailer.
    Verified,
    /// The recorded digest is another's.
    Mismatched,
    /// There is no complete trailer.
    Untrailered,
}

/// What the trailer of `line` says of it.
pub open spec fn frame_spec(line: Seq<u8>) -> Frame {
    if !has_trailer(line) {
        Frame::Untrailered
    } else if blake3_hex(trailed_json(line)) == trailed_digest(line) {
        Frame::Verified
    } else {
        Frame::Mismatched
    }
}

/// The bytes of `line` that a record is decoded from: those before a complete trailer, or the
/// whole line.
pub open spec fn json_spec(line: Seq<u8>) -> Seq<u8> {
    if has_trailer(line) {
        trailed_json(line)
    } else {
        line
    }
}

/// Whether `line` is something followed by what looks like a checksum trailer.
fn is_trailed(line: &[u8]) -> (trailed: bool)
    ensures
        trailed == has_trailer(line@),
{
    if line.len() <= TRAILER_LEN {
        return false;
    }
    let start: usize = line.len() - TRAILER_LEN;
    if line[start] != 124u8 {
        return false;
    }
    let mut at: usize = start + 1;
    while at < line.len()
        invariant
            line@.len() > TRAILER_LEN,
            start == line@.len() - TRAILER_LEN,
            start < at <= line@.len(),
            line@[start as int] == 124u8,
            forall|i: int| line@.len() - 64 <= i < at ==> is_hex(#[trigger] line@[i]),
        decreases line.len() - at,
    {
        let b: u8 = line[at];
        if !((48 <= b && b <= 57) || (97 <= b && b <= 102)) {
            return false;
        }
        at = at + 1;
    }
    true
}

/// Where the bytes of `line` that a record is decoded from end; they start with the line.
pub fn json_len(line: &[u8]) -> (len: usize)
    ensures
        len <= line@.len(),
        line@.take(len as int) == json_spec(line@),
{
    if is_trailed(line) {
        line.len() - TRAILER_LEN
    } else {
        proof {
            assert(line@.take(line@.len() as int) =~= line@);
        }
        line.len()
    }
}

/// Checks the trailer of `line`, found by position from the line's end: a cursor is free to hold
/// `|`.
pub fn frame(line: &[u8]) -> (framed: Frame)
    ensures
        framed == frame_spec(line@),
{
    if !is_trailed(line) {
        return Frame::Untrailered;
    }
    let start: usize = line.len() - TRAILER_LEN;
    let digest: Vec<u8> = digest_hex(vstd::slice::slice_subrange(line, 0, start));
    let ghost recorded = trailed_digest(line@);
    proof {
        assert(line@.subrange(0, start as int) =~= trailed_json(line@));
        assert(recorded.len() == 64);
    }
    let mut at: usize = 0;
    while at < 64
        invariant
            at <= 64,
            digest@.len() == 64,
            recorded.len() == 64,
            recorded == trailed_digest(line@),
            start == line@.len() - TRAILER_LEN,
            TRAILER_LEN < line@.len() <= usize::MAX,
            has_trailer(line@),
            digest@ == blake3_hex(trailed_json(line@)),
            forall|i: int| 0 <= i < at ==> digest@[i] == recorded[i],
        decreases 64 - at,
    {
        assert(recorded[at as int] == line@[start + 1 + at]);
        if digest[at] != line[start + 1 + at] {
            return Frame::Mismatched;
        }
        at = at + 1;
    }
    proof {
        assert(digest@ =~= recorded);
    }
    Frame::Verified
}

/// Why a line with a complete trailer is no record.
#[derive(Debug)]
pub enum Corruption {
    /// The recorded digest does not match the line's bytes.
    Checksum,
    /// The digest matches, but the bytes do not decode as a record.
    Undecodable { error: String },
}

impl Corruption {
    /// The corruption in words.
    pub open spec fn text(self) -> Seq<char> {
        match self {
            Corruption::Checksum =>
                "line checksum mismatch — the recorded digest does not match the line's bytes"@,
            Corruption::Undecodable { error } =>
                "a checksum-verified line does not decode as a record: "@ + error@,
        }
    }

    /// The corruption in words.
    pub fn message(&self) -> (message: String)
        ensures
            message@ == self.text(),
    {
        let mut message = String::new();
        match self {
            Corruption::Checksum => {
                message.append("line checksum mismatch — the recorded digest does not match the line's bytes");
            },
            Corruption::Undecodable { error } => {
                message.append("a checksum-verified line does not decode as a record: ");
                message.append(error.as_str());
            },
        }
        proof {
            assert(message@ =~= self.text());
        }
        message
    }
}

/// One manifest line, classified.
#[derive(Debug)]
pub enum ManifestLine {
    /// Checksum verified and record decoded: the only kind a replay span is built from.
    Record(WalRecord),
    /// A complete trailer whose digest does not match, or a verified line that does not decode.
    ///
    /// A tear only shortens a line, so it completes no trailer unless the record's JSON itself
    /// holds `|` and 64 hex characters.
    Corrupt(Corruption),
    /// No complete trailer. On the final line this is what a crash while appending leaves; the
    /// record the whole line decodes as rides along, so that a header of another format version
    /// can be told from damage.
    Untrailered(Option<WalRecord>),
}

/// How a line framed as `framed` is classified, when what it is decoded from gives `decoded`.
pub open spec fn classify(framed: Frame, decoded: Result<WalRecord, String>) -> ManifestLine {
    match framed {
        Frame::Mismatched => ManifestLine::Corrupt(Corruption::Checksum),
        Frame::Verified => match decoded {
            Ok(record) => ManifestLine::Record(record),
            Err(error) => ManifestLine::Corrupt(Corruption::Undecodable { error }),
        },
        Frame::Untrailered => match decoded {
            Ok(record) => ManifestLine::Untrailered(Some(record)),
            Err(_) => ManifestLine::Untrailered(None),
        },
    }
}

/// Classifies the manifest line `line`, where `decoded` is what the bytes [`json_len`] gives
/// decode as, or why they do not.
pub fn decode_line(line: &[u8], decoded: Result<WalRecord, String>) -> (classified: ManifestLine)
    ensures
        classified == classify(frame_spec(line@), decoded),
{
    match frame(line) {
        Frame::Mismatched => ManifestLine::Corrupt(Corruption::Checksum),
        Frame::Verified => match decoded {
            Ok(record) => ManifestLine::Record(record),
            Err(error) => ManifestLine::Corrupt(Corruption::Undecodable { error }),
        },
        Frame::Untrailered => match decoded {
            Ok(record) => ManifestLine::Untrailered(Some(record)),
            Err(_) => ManifestLine::Untrailered(None),
        },
    }
}

/// A line the writer encodes verifies, and decodes from the bytes it was encoded from.
pub proof fn law_encoded_lines_verify(json: Seq<u8>, line: Seq<u8>)
    requires
        json.len() > 0,
        encodes(line, json),
    ensures
        frame_spec(line) == Frame::Verified,
        json_spec(line) == json,
{
    assert(trailed_json(line) =~= json);
    assert(trailed_digest(line) =~= blake3_hex(json));
}

/// Whether `|` and 64 hex characters stand somewhere in `json`.
pub open spec fn holds_trailer_shape(json: Seq<u8>) -> bool {
    exists|at: int| 0 <= at && at + TRAILER_LEN <= json.len() && #[trigger] trailer_shape_at(json, at)
}

/// Whether `|` and 64 hex characters stand at `at` in `json`.
pub open spec fn trailer_shape_at(json: Seq<u8>, at: int) -> bool {
    &&& json[at] == 124u8
    &&& forall|i: int| at < i < at + TRAILER_LEN ==> is_hex(#[trigger] json[i])
}

/// Every tear of a line whose JSON holds no trailer shape reads as untrailered.
pub proof fn law_torn_lines_are_untrailered(json: Seq<u8>, line: Seq<u8>, cut: int)
    requires
        encodes(line, json),
        !holds_trailer_shape(json),
        0 <= cut < line.len(),
    ensures
        frame_spec(line.take(cut)) == Frame::Untrailered,
{
    let torn = line.take(cut);
    if has_trailer(torn) {
        let at = cut - TRAILER_LEN;
        assert(torn[at] == 124u8);
        assert(at < json.len());
        if at + TRAILER_LEN > json.len() {
            assert(torn[json.len() as int] == 124u8);
            assert(is_hex(torn[json.len() as int]));
        } else {
            assert forall|i: int| at < i < at + TRAILER_LEN implies is_hex(#[trigger] json[i]) by {
                assert(json[i] == torn[i]);
            }
            assert(trailer_shape_at(json, at));
        }
    }
}

/// `.arrow`, which segment names end in.
pub open spec fn arrow_suffix() -> Seq<char> {
    seq!['.', 'a', 'r', 'r', 'o', 'w']
}

/// The name of the run `load_id`'s segment `seq`: `{load_id}-{seq:06}.arrow`.
pub open spec fn segment_name(load_id: Seq<char>, seq: nat) -> Seq<char> {
    load_id.push('-') + padded_dec(seq, 6) + arrow_suffix()
}

/// The name of the run `load_id`'s segment `seq`.
pub fn segment_file_name(load_id: &str, seq: u64) -> (name: String)
    ensures
        name@ == segment_name(load_id@, seq as nat),
{
    let mut name = String::new();
    name.append(load_id);
    name.push('-');
    push_padded(&mut name, seq as u128, 6);
    name.push('.');
    name.push('a');
    name.push('r');
    name.push('r');
    name.push('o');
    name.push('w');
    proof {
        assert(name@ =~= segment_name(load_id@, seq as nat));
    }
    name
}

/// Whether `name` holds `/`, `\` or `..`.
pub open spec fn has_path_punctuation(name: Seq<char>) -> bool {
    exists|i: int| 0 <= i < name.len() && #[trigger] punctuated_at(name, i)
}

/// Whether `/`, `\` or `..` stands at `i` in `name`.
pub open spec fn punctuated_at(name: Seq<char>, i: int) -> bool {
    name[i] == '/' || name[i] == '\\' || (name[i] == '.' && i + 1 < name.len() && name[i + 1]
        == '.')
}

/// Whether `c` is an ASCII digit.
pub open spec fn is_digit(c: char) -> bool {
    '0' <= c <= '9'
}

/// Whether `name` is `load_id`, `-`, six or more digits, and `.arrow`.
pub open spec fn writer_shaped(load_id: Seq<char>, name: Seq<char>) -> bool {
    &&& name.len() >= load_id.len() + 13
    &&& name.take(load_id.len() as int) == load_id
    &&& name[load_id.len() as int] == '-'
    &&& name.skip(name.len() - 6) == arrow_suffix()
    &&& forall|i: int| load_id.len() < i < name.len() - 6 ==> is_digit(#[trigger] name[i])
}

/// Why a manifest's segment name did not come from the run's writer.
#[derive(Debug)]
pub enum NameFault {
    /// It holds `/`, `\` or `..`.
    Punctuation { file: String },
    /// It is not the shape of the run's segments.
    Shape { file: String, load_id: String },
}

impl NameFault {
    /// The fault in words.
    pub open spec fn text(self) -> Seq<char> {
        match self {
            NameFault::Punctuation { file } => "segment name "@ + debug_form(file@)
                + " carries path punctuation — the writer names segments `{load_id}-{seq:06}.arrow` inside the WAL directory itself, so this manifest was not written by one"@,
            NameFault::Shape { file, load_id } => "segment name "@ + debug_form(file@)
                + " does not match this run's `"@ + debug_form(load_id@)
                + "-{seq:06}.arrow` writer shape"@,
        }
    }

    /// The fault in words.
    pub fn message(&self) -> (message: String)
        ensures
            message@ == self.text(),
    {
        let mut message = String::new();
        match self {
            NameFault::Punctuation { file } => {
                message.append("segment name ");
                message.append(debug_text(file.as_str()).as_str());
                message.append(" carries path punctuation — the writer names segments `{load_id}-{seq:06}.arrow` inside the WAL directory itself, so this manifest was not written by one");
            },
            NameFault::Shape { file, load_id } => {
                message.append("segment name ");
                message.append(debug_text(file.as_str()).as_str());
                message.append(" does not match this run's `");
                message.append(debug_text(load_id.as_str()).as_str());
                message.append("-{seq:06}.arrow` writer shape");
            },
        }
        proof {
            assert(message@ =~= self.text());
        }
        message
    }
}

/// What is wrong with `file` as the name of a segment of the run `load_id`.
pub open spec fn name_fault(load_id: String, file: String) -> Option<NameFault> {
    if has_path_punctuation(file@) {
        Some(NameFault::Punctuation { file })
    } else if !writer_shaped(load_id@, file@) {
        Some(NameFault::Shape { file, load_id })
    } else {
        None
    }
}

/// Whether `name` holds `/`, `\` or `..`.
fn is_punctuated(name: &Vec<char>) -> (punctuated: bool)
    ensures
        punctuated == has_path_punctuation(name@),
{
    let mut at: usize = 0;
    while at < name.len()
        invariant
            at <= name@.len(),
            forall|i: int| 0 <= i < at ==> !#[trigger] punctuated_at(name@, i),
        decreases name.len() - at,
    {
        let c: char = name[at];
        if c == '/' || c == '\\' || (c == '.' && at + 1 < name.len() && name[at + 1] == '.') {
            assert(punctuated_at(name@, at as int));
            return true;
        }
        at = at + 1;
    }
    false
}

/// Whether `name` is `load_id`, `-`, six or more digits, and `.arrow`.
fn is_writer_shaped(load_id: &Vec<char>, name: &Vec<char>) -> (shaped: bool)
    ensures
        shaped == writer_shaped(load_id@, name@),
{
    if name.len() < 13 || name.len() - 13 < load_id.len() {
        return false;
    }
    let prefix: usize = load_id.len();
    let mut at: usize = 0;
    while at < prefix
        invariant
            prefix == load_id@.len(),
            at <= prefix <= name@.len(),
            forall|i: int| 0 <= i < at ==> name@[i] == load_id@[i],
        decreases prefix - at,
    {
        if name[at] != load_id[at] {
            assert(name@.take(prefix as int)[at as int] == name@[at as int]);
            return false;
        }
        at = at + 1;
    }
    assert(name@.take(prefix as int) =~= load_id@);
    if name[prefix] != '-' {
        return false;
    }
    let end: usize = name.len() - 6;
    assert(name@.skip(end as int).len() == 6);
    if name[end] != '.' || name[end + 1] != 'a' || name[end + 2] != 'r' || name[end + 3] != 'r'
        || name[end + 4] != 'o' || name[end + 5] != 'w' {
        assert(name@.skip(end as int) != arrow_suffix()) by {
            let tail = name@.skip(end as int);
            assert(tail[0] == name@[end as int]);
            assert(tail[1] == name@[end + 1]);
            assert(tail[2] == name@[end + 2]);
            assert(tail[3] == name@[end + 3]);
            assert(tail[4] == name@[end + 4]);
            assert(tail[5] == name@[end + 5]);
            assert(arrow_suffix()[0] == '.' && arrow_suffix()[1] == 'a' && arrow_suffix()[2] == 'r'
                && arrow_suffix()[3] == 'r' && arrow_suffix()[4] == 'o' && arrow_suffix()[5]
                == 'w');
        }
        return false;
    }
    assert(name@.skip(end as int) =~= arrow_suffix());
    let mut at: usize = prefix + 1;
    while at < end
        invariant
            prefix == load_id@.len(),
            prefix < at <= end,
            end == name@.len() - 6,
            forall|i: int| prefix < i < at ==> is_digit(#[trigger] name@[i]),
        decreases end - at,
    {
        if !('0' <= name[at] && name[at] <= '9') {
            assert(!is_digit(name@[at as int]));
            return false;
        }
        at = at + 1;
    }
    true
}

/// Gates a segment name a manifest supplies, before it is joined to any directory.
///
/// The check is derived from what the writer produces, so path punctuation, another run's prefix
/// or a malformed sequence all mean that the line did not come from a writer.
pub fn verify_segment_file(load_id: &String, file: &String) -> (verdict: Result<(), NameFault>)
    ensures
        match verdict {
            Ok(_) => name_fault(*load_id, *file) is None,
            Err(fault) => name_fault(*load_id, *file) == Some(fault),
        },
{
    let name: Vec<char> = chars_of(file.as_str());
    if is_punctuated(&name) {
        return Err(NameFault::Punctuation { file: file.clone() });
    }
    if !is_writer_shaped(&chars_of(load_id.as_str()), &name) {
        return Err(NameFault::Shape { file: file.clone(), load_id: load_id.clone() });
    }
    Ok(())
}

/// Nothing is wrong with a name the run's writer gives a segment, where the run's own id holds no
/// path punctuation.
pub proof fn law_the_writers_names_pass(load_id: Seq<char>, seq: nat)
    requires
        !has_path_punctuation(load_id),
    ensures
        writer_shaped(load_id, segment_name(load_id, seq)),
        !has_path_punctuation(segment_name(load_id, seq)),
{
    lemma_padded_reads_back(seq, 6);
    let digits = padded_dec(seq, 6);
    let name = segment_name(load_id, seq);
    assert(name.take(load_id.len() as int) =~= load_id);
    assert(name.skip(name.len() - 6) =~= arrow_suffix());
    assert forall|i: int| load_id.len() < i < name.len() - 6 implies is_digit(
        #[trigger] name[i],
    ) by {
        assert(name[i] == digits[i - load_id.len() - 1]);
    }
    assert forall|i: int| 0 <= i < name.len() implies !#[trigger] punctuated_at(name, i) by {
        if i < load_id.len() {
            assert(!punctuated_at(load_id, i));
            assert(name[i] == load_id[i]);
        } else if i > load_id.len() && i < name.len() - 6 {
            assert(name[i] == digits[i - load_id.len() - 1]);
        } else if i >= name.len() - 6 {
            assert(name[i] == arrow_suffix()[i - (name.len() - 6)]);
            if i + 1 < name.len() {
                assert(name[i + 1] == arrow_suffix()[i + 1 - (name.len() - 6)]);
            }
        }
    }
}

/// A run's segments have different names.
pub proof fn law_segment_names_are_distinct(load_id: Seq<char>, a: nat, b: nat)
    requires
        a != b,
    ensures
        segment_name(load_id, a) != segment_name(load_id, b),
{
    lemma_padded_reads_back(a, 6);
    lemma_padded_reads_back(b, 6);
    let left = segment_name(load_id, a);
    let right = segment_name(load_id, b);
    if left == right {
        assert(left.subrange(load_id.len() as int + 1, left.len() - 6) =~= padded_dec(a, 6));
        assert(right.subrange(load_id.len() as int + 1, right.len() - 6) =~= padded_dec(b, 6));
    }
}

} // verus!
