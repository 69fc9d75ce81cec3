//! Reading a manifest line by line, within bounds, into the records its lines carry.

use crate::text::{dec, push_decimal};
use crate::wal::record::{
    classify, decode_line, frame_spec, Corruption, ManifestLine, WalRecord,
    MAX_MANIFEST_LINE_BYTES, WAL_FORMAT_VERSION,
};
use vstd::prelude::*;
use vstd::slice::slice_subrange;
use vstd::string::*;
use vstd::utf8::*;

verus! {

/// The most bytes of a manifest a scan reads: one line is bounded by its own cap, and this bounds
/// their sum, which the scan accumulates.
pub const MAX_MANIFEST_TOTAL_BYTES: u64 = 1073741824;

/// What Rust says of bytes that are not UTF-8.
pub uninterp spec fn utf8_fault(bytes: Seq<u8>) -> Seq<char>;

/// `String::from_utf8`: the text whose UTF-8 the bytes are, or, where they are not UTF-8, the
/// error's own words.
#[verifier::external_body]
fn text_from_utf8(bytes: &[u8]) -> (text: Result<String, String>)
    ensures
        match text {
            Ok(text) => valid_utf8(bytes@) && encode_utf8(text@) == bytes@,
            Err(error) => !valid_utf8(bytes@) && error@ == utf8_fault(bytes@),
        },
{
    String::from_utf8(bytes.to_vec()).map_err(|error| error.to_string())
}

/// One line of a manifest: its text, and how many bytes of terminator stand before the next:
/// one for `\n`, two for `\r\n`, none for an unterminated last line.
#[derive(Debug)]
pub struct ReadLine {
    pub text: String,
    pub terminator: u64,
}

/// Why no line could be read.
#[derive(Debug)]
pub enum LineFault {
    /// The reader failed.
    Read { error: String },
    /// The line is longer than [`MAX_MANIFEST_LINE_BYTES`].
    OverCap,
    /// The line is not UTF-8.
    NotUtf8 { error: String },
}

impl LineFault {
    /// The fault in words.
    pub open spec fn text(self) -> Seq<char> {
        match self {
            LineFault::Read { error } => "manifest read: "@ + error@,
            LineFault::OverCap => "manifest line exceeds the "@ + dec(
                MAX_MANIFEST_LINE_BYTES as nat,
            ) + "-byte metadata cap"@,
            LineFault::NotUtf8 { error } => "manifest line is not UTF-8: "@ + error@,
        }
    }

    /// The fault in words.
    pub fn message(&self) -> (message: String)
        ensures
            message@ == self.text(),
    {
        let mut message = String::new();
        match self {
            LineFault::Read { error } => {
                message.append("manifest read: ");
                message.append(error.as_str());
            },
            LineFault::OverCap => {
                message.append("manifest line exceeds the ");
                push_decimal(&mut message, MAX_MANIFEST_LINE_BYTES as u128);
                message.append("-byte metadata cap");
            },
            LineFault::NotUtf8 { error } => {
                message.append("manifest line is not UTF-8: ");
                message.append(error.as_str());
            },
        }
        proof {
            assert(message@ =~= self.text());
        }
        message
    }
}

/// Where reading from `start` stops: behind the first `\n`, or after two bytes more than the cap,
/// or at the end.
pub open spec fn read_to(bytes: Seq<u8>, start: int, at: int) -> int
    decreases bytes.len() - at,
{
    if at >= bytes.len() || at >= start + MAX_MANIFEST_LINE_BYTES + 2 {
        at
    } else if bytes[at] == 10u8 {
        at + 1
    } else {
        read_to(bytes, start, at + 1)
    }
}

/// How many bytes of `read`, which reading gave, are a terminator.
pub open spec fn terminator_of(read: Seq<u8>) -> int {
    if read.len() > 0 && read.last() == 10u8 {
        if read.len() > 1 && read[read.len() - 2] == 13u8 {
            2
        } else {
            1
        }
    } else {
        0
    }
}

/// What reading gives at `start`: the bytes up to where it stops.
pub open spec fn read_bytes(bytes: Seq<u8>, start: int) -> Seq<u8> {
    bytes.subrange(start, read_to(bytes, start, start))
}

/// The line's bytes at `start`, its terminator aside.
pub open spec fn content_at(bytes: Seq<u8>, start: int) -> Seq<u8> {
    let read = read_bytes(bytes, start);
    read.take(read.len() - terminator_of(read))
}

/// Whether `read` is what a read of the line at `start` gives.
pub open spec fn reads(
    bytes: Seq<u8>,
    start: int,
    read: Result<Option<ReadLine>, LineFault>,
) -> bool {
    match read {
        Ok(None) => start >= bytes.len(),
        Ok(Some(line)) => {
            &&& start < bytes.len()
            &&& content_at(bytes, start).len() <= MAX_MANIFEST_LINE_BYTES
            &&& valid_utf8(content_at(bytes, start))
            &&& encode_utf8(line.text@) == content_at(bytes, start)
            &&& line.terminator == terminator_of(read_bytes(bytes, start))
        },
        Err(LineFault::OverCap) => {
            &&& start < bytes.len()
            &&& content_at(bytes, start).len() > MAX_MANIFEST_LINE_BYTES
        },
        Err(LineFault::NotUtf8 { error }) => {
            &&& start < bytes.len()
            &&& content_at(bytes, start).len() <= MAX_MANIFEST_LINE_BYTES
            &&& !valid_utf8(content_at(bytes, start))
            &&& error@ == utf8_fault(content_at(bytes, start))
        },
        Err(LineFault::Read { .. }) => false,
    }
}

/// Reading goes on by at least a byte where there is one, and not far past the cap.
pub proof fn lemma_read_to(bytes: Seq<u8>, start: int, at: int)
    requires
        0 <= start <= at <= bytes.len(),
    ensures
        at <= read_to(bytes, start, at) <= bytes.len(),
        at < bytes.len() && at < start + MAX_MANIFEST_LINE_BYTES + 2 ==> at < read_to(
            bytes,
            start,
            at,
        ),
        at <= start + MAX_MANIFEST_LINE_BYTES + 2 ==> read_to(bytes, start, at) <= start
            + MAX_MANIFEST_LINE_BYTES + 2,
    decreases bytes.len() - at,
{
    if at < bytes.len() && at < start + MAX_MANIFEST_LINE_BYTES + 2 && bytes[at] != 10u8 {
        lemma_read_to(bytes, start, at + 1);
    }
}

/// Reads the manifest line at `start`, and no more than two bytes past the cap; none at the end.
///
/// The terminator is stripped before the line is measured, so a line of exactly the cap is read.
pub fn read_manifest_line(bytes: &[u8], start: usize) -> (read: (
    Result<Option<ReadLine>, LineFault>,
    usize,
))
    requires
        start <= bytes@.len(),
    ensures
        reads(bytes@, start as int, read.0),
        read.1 == read_to(bytes@, start as int, start as int),
        start <= read.1 <= bytes@.len(),
        start < bytes@.len() ==> start < read.1,
        read.1 - start <= MAX_MANIFEST_LINE_BYTES + 2,
{
    let ghost b = bytes@;
    proof {
        lemma_read_to(b, start as int, start as int);
        assert(bytes.len() == b.len());
    }
    if start >= bytes.len() {
        return (Ok(None), start);
    }
    let left: usize = bytes.len() - start;
    let most: usize = if left < MAX_MANIFEST_LINE_BYTES + 2 {
        left
    } else {
        MAX_MANIFEST_LINE_BYTES + 2
    };
    let mut at: usize = start;
    let mut ended: bool = false;
    while at - start < most && !ended
        invariant
            b == bytes@,
            start < b.len() <= usize::MAX,
            left == b.len() - start,
            most <= left,
            most <= MAX_MANIFEST_LINE_BYTES + 2,
            most == left || most == MAX_MANIFEST_LINE_BYTES + 2,
            start <= at <= start + most,
            ended ==> at == read_to(b, start as int, start as int),
            !ended ==> read_to(b, start as int, start as int) == read_to(
                b,
                start as int,
                at as int,
            ),
        decreases start + most - at + if ended { 0int } else { 1int },
    {
        if bytes[at] == 10u8 {
            ended = true;
        }
        at = at + 1;
    }
    let ghost read = read_bytes(b, start as int);
    assert(read =~= b.subrange(start as int, at as int));
    let mut end: usize = at;
    let mut terminator: u64 = 0;
    if bytes[end - 1] == 10u8 {
        end = end - 1;
        terminator = 1;
        if end > start && bytes[end - 1] == 13u8 {
            end = end - 1;
            terminator = 2;
        }
    }
    assert(read.last() == b[at - 1]);
    assert(terminator == terminator_of(read));
    let content: &[u8] = slice_subrange(bytes, start, end);
    assert(content@ =~= content_at(b, start as int));
    if end - start > MAX_MANIFEST_LINE_BYTES {
        return (Err(LineFault::OverCap), at);
    }
    match text_from_utf8(content) {
        Ok(text) => (Ok(Some(ReadLine { text, terminator })), at),
        Err(error) => (Err(LineFault::NotUtf8 { error }), at),
    }
}

/// Whether `c` has Unicode's `White_Space` property.
pub open spec fn is_white_space(c: char) -> bool {
    let p = c as u32;
    ||| 0x9 <= p <= 0xD
    ||| p == 0x20
    ||| p == 0x85
    ||| p == 0xA0
    ||| p == 0x1680
    ||| 0x2000 <= p <= 0x200A
    ||| p == 0x2028
    ||| p == 0x2029
    ||| p == 0x202F
    ||| p == 0x205F
    ||| p == 0x3000
}

/// Whether `text` is white space alone.
pub open spec fn is_blank(text: Seq<char>) -> bool {
    forall|i: int| 0 <= i < text.len() ==> is_white_space(#[trigger] text[i])
}

/// Whether `text` is white space alone.
pub fn blank(text: &str) -> (blank: bool)
    ensures
        blank == is_blank(text@),
{
    let chars: Vec<char> = crate::text::chars_of(text);
    let mut i: usize = 0;
    while i < chars.len()
        invariant
            i <= chars@.len(),
            chars@ == text@,
            forall|k: int| 0 <= k < i ==> is_white_space(#[trigger] chars@[k]),
        decreases chars.len() - i,
    {
        let p: u32 = chars[i] as u32;
        if !((0x9 <= p && p <= 0xD) || p == 0x20 || p == 0x85 || p == 0xA0 || p == 0x1680 || (
        0x2000 <= p && p <= 0x200A) || p == 0x2028 || p == 0x2029 || p == 0x202F || p == 0x205F || p
            == 0x3000) {
            assert(!is_white_space(text@[i as int]));
            return false;
        }
        i = i + 1;
    }
    true
}

/// Why reading a manifest stopped short.
#[derive(Debug)]
pub enum ReadFault {
    /// A line could not be read.
    Line(LineFault),
    /// The lines exceed this many bytes in all.
    OverBudget { budget: u64 },
}

/// A read fault, its texts taken by what they hold.
pub ghost enum FaultView {
    Read(Seq<char>),
    OverCap,
    NotUtf8(Seq<char>),
    OverBudget(u64),
}

impl View for ReadFault {
    type V = FaultView;

    open spec fn view(&self) -> FaultView {
        match self {
            ReadFault::Line(LineFault::Read { error }) => FaultView::Read(error@),
            ReadFault::Line(LineFault::OverCap) => FaultView::OverCap,
            ReadFault::Line(LineFault::NotUtf8 { error }) => FaultView::NotUtf8(error@),
            ReadFault::OverBudget { budget } => FaultView::OverBudget(*budget),
        }
    }
}

/// The lines of a manifest up to its end, or up to the first that could not be read.
#[derive(Debug)]
pub struct Lines {
    pub lines: Vec<ReadLine>,
    pub fault: Option<ReadFault>,
}

/// A line's text and the length of its terminator.
pub open spec fn line_view(line: ReadLine) -> (Seq<char>, int) {
    (line.text@, line.terminator as int)
}

/// The lines' texts and the lengths of their terminators.
pub open spec fn line_views(lines: Seq<ReadLine>) -> Seq<(Seq<char>, int)> {
    lines.map_values(|line: ReadLine| line_view(line))
}

/// Whether a reader that fails behind `bytes` fails on the line at `start`: it finds no end of it
/// before.
pub open spec fn runs_out(bytes: Seq<u8>, start: int) -> bool {
    let next = read_to(bytes, start, start);
    &&& next >= bytes.len()
    &&& next - start < MAX_MANIFEST_LINE_BYTES + 2
    &&& next > start ==> bytes[next - 1] != 10u8
}

/// The lines from `start` on and why they stop short, when `spent` bytes of `budget` are spent,
/// and where a reader that `failed` did so behind `bytes`.
pub open spec fn manifest_lines(
    bytes: Seq<u8>,
    start: int,
    spent: int,
    budget: u64,
    failed: Option<Seq<char>>,
) -> (Seq<(Seq<char>, int)>, Option<FaultView>)
    decreases bytes.len() - start,
{
    let next = read_to(bytes, start, start);
    let content = content_at(bytes, start);
    if failed is Some && runs_out(bytes, start) {
        (Seq::empty(), Some(FaultView::Read(failed->0)))
    } else if start < 0 || start >= bytes.len() {
        (Seq::empty(), None)
    } else if content.len() > MAX_MANIFEST_LINE_BYTES {
        (Seq::empty(), Some(FaultView::OverCap))
    } else if !valid_utf8(content) {
        (Seq::empty(), Some(FaultView::NotUtf8(utf8_fault(content))))
    } else if spent + (next - start) > budget {
        (Seq::empty(), Some(FaultView::OverBudget(budget)))
    } else {
        proof {
            lemma_read_to(bytes, start, start);
        }
        let rest = manifest_lines(bytes, next, spent + (next - start), budget, failed);
        (
            seq![(decode_utf8(content), terminator_of(read_bytes(bytes, start)))] + rest.0,
            rest.1,
        )
    }
}

/// A text by what it holds, if there is one.
pub open spec fn text_of(text: Option<String>) -> Option<Seq<char>> {
    match text {
        Some(text) => Some(text@),
        None => None,
    }
}

/// A fault as its view says it.
pub open spec fn fault_view(fault: Option<ReadFault>) -> Option<FaultView> {
    match fault {
        Some(fault) => Some(fault@),
        None => None,
    }
}

/// Reads the lines of a manifest within `budget` bytes; `failed` is why its reader failed behind
/// `bytes`, if it did.
pub fn read_lines(bytes: &[u8], budget: u64, failed: Option<String>) -> (read: Lines)
    ensures
        ({
            let expected = manifest_lines(
                bytes@,
                0,
                0,
                budget,
                text_of(failed),
            );
            line_views(read.lines@) == expected.0 && fault_view(read.fault) == expected.1
        }),
{
    let ghost b = bytes@;
    let ghost broken: Option<Seq<char>> = text_of(failed);
    let mut lines: Vec<ReadLine> = Vec::new();
    let mut start: usize = 0;
    let mut spent: u64 = 0;
    let ghost all = manifest_lines(b, 0, 0, budget, broken);
    proof {
        assert(bytes.len() == b.len());
        assert(line_views(lines@) =~= Seq::empty());
        assert(line_views(lines@) + all.0 =~= all.0);
    }
    loop
        invariant
            b == bytes@,
            b.len() <= usize::MAX,
            start <= b.len(),
            spent == start,
            broken == text_of(failed),
            all == manifest_lines(b, 0, 0, budget, broken),
            all.0 == line_views(lines@) + manifest_lines(
                b,
                start as int,
                spent as int,
                budget,
                broken,
            ).0,
            all.1 == manifest_lines(b, start as int, spent as int, budget, broken).1,
        decreases b.len() - start,
    {
        let ghost rest = manifest_lines(b, start as int, spent as int, budget, broken);
        let (read, next): (Result<Option<ReadLine>, LineFault>, usize) = read_manifest_line(
            bytes,
            start,
        );
        if let Some(error) = &failed {
            if next >= bytes.len() && next - start < MAX_MANIFEST_LINE_BYTES + 2 && (next == start
                || bytes[next - 1] != 10u8) {
                proof {
                    assert(line_views(lines@) + rest.0 =~= line_views(lines@));
                }
                let fault: Option<ReadFault> = Some(
                    ReadFault::Line(LineFault::Read { error: error.clone() }),
                );
                return Lines { lines, fault };
            }
        }
        match read {
            Ok(None) => {
                proof {
                    assert(line_views(lines@) + rest.0 =~= line_views(lines@));
                }
                return Lines { lines, fault: None };
            },
            Err(fault) => {
                proof {
                    assert(line_views(lines@) + rest.0 =~= line_views(lines@));
                }
                return Lines { lines, fault: Some(ReadFault::Line(fault)) };
            },
            Ok(Some(line)) => {
                let taken: u64 = (next - start) as u64;
                if taken > budget || spent > budget - taken {
                    proof {
                        assert(line_views(lines@) + rest.0 =~= line_views(lines@));
                    }
                    return Lines { lines, fault: Some(ReadFault::OverBudget { budget }) };
                }
                let ghost had = line_views(lines@);
                proof {
                    encode_utf8_decode_utf8(line.text@);
                }
                let ghost one = line_view(line);
                lines.push(line);
                proof {
                    assert(line_views(lines@) =~= had.push(one));
                    let more = manifest_lines(
                        b,
                        next as int,
                        spent + taken,
                        budget,
                        broken,
                    );
                    assert(had + (seq![one] + more.0) =~= had.push(one) + more.0);
                }
                spent = spent + taken;
                start = next;
            },
        }
    }
}

/// Why a manifest's lines give no records.
#[derive(Debug)]
pub enum ManifestFault {
    /// Reading stopped short.
    Read(ReadFault),
    /// A line's trailer is complete, and the line is no record.
    Corrupt(Corruption),
    /// A line that is not the last has no trailer.
    MidManifest,
}

impl ManifestFault {
    /// The fault in words.
    pub open spec fn text(self) -> Seq<char> {
        match self {
            ManifestFault::Read(ReadFault::Line(fault)) => fault.text(),
            ManifestFault::Read(ReadFault::OverBudget { budget }) => "manifest exceeds the "@ + dec(
                budget as nat,
            )
                + "-byte total budget — the per-line cap bounds one line, but recovery accumulates every line"@,
            ManifestFault::Corrupt(corruption) => "manifest corruption: "@ + corruption.text(),
            ManifestFault::MidManifest =>
                "mid-manifest corruption: a line carries no checksum trailer"@,
        }
    }

    /// The fault in words.
    pub fn message(&self) -> (message: String)
        ensures
            message@ == self.text(),
    {
        let mut message = String::new();
        match self {
            ManifestFault::Read(ReadFault::Line(fault)) => {
                message.append(fault.message().as_str());
            },
            ManifestFault::Read(ReadFault::OverBudget { budget }) => {
                message.append("manifest exceeds the ");
                push_decimal(&mut message, *budget as u128);
                message.append("-byte total budget — the per-line cap bounds one line, but recovery accumulates every line");
            },
            ManifestFault::Corrupt(corruption) => {
                message.append("manifest corruption: ");
                message.append(corruption.message().as_str());
            },
            ManifestFault::MidManifest => {
                message.append("mid-manifest corruption: a line carries no checksum trailer");
            },
        }
        proof {
            assert(message@ =~= self.text());
        }
        message
    }
}

/// Whether `decoded` is a header of another format version.
pub open spec fn is_skewed_header(decoded: Option<WalRecord>) -> bool {
    match decoded {
        Some(WalRecord::Run { format_version, .. }) => format_version != WAL_FORMAT_VERSION,
        _ => false,
    }
}

/// The records the lines from `i` on carry, behind `records`, or why they carry none.
///
/// A last line without a trailer is a torn append and is left out; a bare header of another
/// version ends the reading with that header alone, for the version to be refused by shape.
pub open spec fn records_from(
    lines: Seq<ReadLine>,
    fault: Option<ReadFault>,
    decoded: Seq<Result<WalRecord, String>>,
    i: int,
    records: Seq<WalRecord>,
) -> Result<Seq<WalRecord>, ManifestFault>
    decreases lines.len() - i,
{
    if i >= lines.len() {
        match fault {
            Some(fault) => Err(ManifestFault::Read(fault)),
            None => Ok(records),
        }
    } else if is_blank(lines[i].text@) {
        records_from(lines, fault, decoded, i + 1, records)
    } else {
        match classify(frame_spec(encode_utf8(lines[i].text@)), decoded[i]) {
            ManifestLine::Record(record) => records_from(
                lines,
                fault,
                decoded,
                i + 1,
                records.push(record),
            ),
            ManifestLine::Corrupt(corruption) => Err(ManifestFault::Corrupt(corruption)),
            ManifestLine::Untrailered(parsed) => if is_skewed_header(parsed) {
                Ok(records.push(parsed->0))
            } else if i + 1 < lines.len() {
                Err(ManifestFault::MidManifest)
            } else {
                match fault {
                    Some(ReadFault::OverBudget { .. }) => Err(ManifestFault::MidManifest),
                    Some(fault) => Err(ManifestFault::Read(fault)),
                    None => Ok(records),
                }
            },
        }
    }
}

/// What `decoded` holds, again.
fn decoded_again(decoded: &Result<WalRecord, String>) -> (copy: Result<WalRecord, String>)
    ensures
        copy == *decoded,
{
    match decoded {
        Ok(record) => Ok(record.clone()),
        Err(error) => Err(error.clone()),
    }
}

/// The records that `read`'s lines carry, where `decoded` is what each line's JSON decodes as.
pub fn collect_records(read: Lines, decoded: &Vec<Result<WalRecord, String>>) -> (collected: Result<
    Vec<WalRecord>,
    ManifestFault,
>)
    requires
        decoded@.len() == read.lines@.len(),
    ensures
        match collected {
            Ok(records) => records_from(read.lines@, read.fault, decoded@, 0, Seq::empty()) == Ok::<
                Seq<WalRecord>,
                ManifestFault,
            >(records@),
            Err(fault) => records_from(read.lines@, read.fault, decoded@, 0, Seq::empty()) == Err::<
                Seq<WalRecord>,
                ManifestFault,
            >(fault),
        },
{
    let lines: Vec<ReadLine> = read.lines;
    let fault: Option<ReadFault> = read.fault;
    let ghost all = records_from(lines@, fault, decoded@, 0, Seq::empty());
    let mut records: Vec<WalRecord> = Vec::new();
    let mut i: usize = 0;
    while i < lines.len()
        invariant
            i <= lines@.len(),
            decoded@.len() == lines@.len(),
            all == records_from(lines@, fault, decoded@, i as int, records@),
            lines@ == read.lines@,
            fault == read.fault,
            all == records_from(read.lines@, read.fault, decoded@, 0, Seq::empty()),
        decreases lines.len() - i,
    {
        let text: &String = &lines[i].text;
        if !blank(text.as_str()) {
            match decode_line(text.as_str().as_bytes(), decoded_again(&decoded[i])) {
                ManifestLine::Record(record) => {
                    records.push(record);
                },
                ManifestLine::Corrupt(corruption) => {
                    return Err(ManifestFault::Corrupt(corruption));
                },
                ManifestLine::Untrailered(parsed) => {
                    if let Some(WalRecord::Run { format_version, load_id, pipeline }) = parsed {
                        if format_version != WAL_FORMAT_VERSION {
                            records.push(WalRecord::Run { format_version, load_id, pipeline });
                            return Ok(records);
                        }
                    }
                    if i + 1 < lines.len() {
                        return Err(ManifestFault::MidManifest);
                    }
                    return match fault {
                        Some(ReadFault::OverBudget { .. }) => Err(ManifestFault::MidManifest),
                        Some(fault) => Err(ManifestFault::Read(fault)),
                        None => Ok(records),
                    };
                },
            }
        }
        i = i + 1;
    }
    match fault {
        Some(fault) => Err(ManifestFault::Read(fault)),
        None => Ok(records),
    }
}

/// A last line that is torn off before its trailer is complete changes nothing of what the lines
/// before it give, unless it is a whole header of another version.
pub proof fn law_a_torn_last_line_is_left_out(
    lines: Seq<ReadLine>,
    decoded: Seq<Result<WalRecord, String>>,
    torn: ReadLine,
    torn_decoded: Result<WalRecord, String>,
)
    requires
        lines.len() == decoded.len(),
        classify(frame_spec(encode_utf8(torn.text@)), torn_decoded) is Untrailered,
        !is_skewed_header(
            classify(frame_spec(encode_utf8(torn.text@)), torn_decoded)->Untrailered_0,
        ),
        records_from(lines, None, decoded, 0, Seq::empty()) is Ok,
        forall|i: int|
            0 <= i < lines.len() && !is_blank((#[trigger] lines[i]).text@) ==> frame_spec(
                encode_utf8(lines[i].text@),
            ) != crate::wal::record::Frame::Untrailered,
    ensures
        records_from(lines.push(torn), None, decoded.push(torn_decoded), 0, Seq::empty())
            == records_from(lines, None, decoded, 0, Seq::empty()),
{
    lemma_torn(lines, decoded, torn, torn_decoded, 0, Seq::empty());
}

proof fn lemma_torn(
    lines: Seq<ReadLine>,
    decoded: Seq<Result<WalRecord, String>>,
    torn: ReadLine,
    torn_decoded: Result<WalRecord, String>,
    i: int,
    records: Seq<WalRecord>,
)
    requires
        lines.len() == decoded.len(),
        0 <= i <= lines.len(),
        classify(frame_spec(encode_utf8(torn.text@)), torn_decoded) is Untrailered,
        !is_skewed_header(
            classify(frame_spec(encode_utf8(torn.text@)), torn_decoded)->Untrailered_0,
        ),
        records_from(lines, None, decoded, i, records) is Ok,
        forall|k: int|
            0 <= k < lines.len() && !is_blank((#[trigger] lines[k]).text@) ==> frame_spec(
                encode_utf8(lines[k].text@),
            ) != crate::wal::record::Frame::Untrailered,
    ensures
        records_from(lines.push(torn), None, decoded.push(torn_decoded), i, records)
            == records_from(lines, None, decoded, i, records),
    decreases lines.len() - i,
{
    let longer = lines.push(torn);
    let longer_decoded = decoded.push(torn_decoded);
    if i < lines.len() {
        assert(longer[i] == lines[i]);
        assert(longer_decoded[i] == decoded[i]);
        if is_blank(lines[i].text@) {
            lemma_torn(lines, decoded, torn, torn_decoded, i + 1, records);
        } else {
            match classify(frame_spec(encode_utf8(lines[i].text@)), decoded[i]) {
                ManifestLine::Record(record) => {
                    lemma_torn(lines, decoded, torn, torn_decoded, i + 1, records.push(record));
                },
                _ => {},
            }
        }
    } else {
        assert(longer[i] == torn);
        assert(longer_decoded[i] == torn_decoded);
        if is_blank(torn.text@) {
            assert(records_from(longer, None, longer_decoded, i + 1, records) == Ok::<
                Seq<WalRecord>,
                ManifestFault,
            >(records));
        }
    }
}

/// A line is blank exactly where it holds nothing but Unicode's white space: the tab and the line
/// ends, the space and those of other widths, the no-break spaces, and the separators.
pub proof fn law_blank_lines_hold_white_space_alone(text: Seq<char>)
    ensures
        is_blank(text) <==> forall|i: int|
            0 <= i < text.len() ==> seq![
                '\t',
                '\n',
                '\u{b}',
                '\u{c}',
                '\r',
                ' ',
                '\u{85}',
                '\u{a0}',
                '\u{1680}',
                '\u{2000}',
                '\u{2001}',
                '\u{2002}',
                '\u{2003}',
                '\u{2004}',
                '\u{2005}',
                '\u{2006}',
                '\u{2007}',
                '\u{2008}',
                '\u{2009}',
                '\u{200a}',
                '\u{2028}',
                '\u{2029}',
                '\u{202f}',
                '\u{205f}',
                '\u{3000}',
            ].contains(#[trigger] text[i]),
{
    assert forall|c: char| #[trigger] is_white_space(c) == white_spaces().contains(c) by {
        lemma_white_space(c);
    }
    if is_blank(text) {
        assert forall|i: int| 0 <= i < text.len() implies white_spaces().contains(
            #[trigger] text[i],
        ) by {
            assert(is_white_space(text[i]));
        }
    } else {
        let i = choose|i: int| 0 <= i < text.len() && !is_white_space(#[trigger] text[i]);
        assert(!white_spaces().contains(text[i]));
    }
}

/// Unicode's white space, in the order of its code points.
spec fn white_spaces() -> Seq<char> {
    seq![
        '\t',
        '\n',
        '\u{b}',
        '\u{c}',
        '\r',
        ' ',
        '\u{85}',
        '\u{a0}',
        '\u{1680}',
        '\u{2000}',
        '\u{2001}',
        '\u{2002}',
        '\u{2003}',
        '\u{2004}',
        '\u{2005}',
        '\u{2006}',
        '\u{2007}',
        '\u{2008}',
        '\u{2009}',
        '\u{200a}',
        '\u{2028}',
        '\u{2029}',
        '\u{202f}',
        '\u{205f}',
        '\u{3000}',
    ]
}

proof fn lemma_white_space(c: char)
    ensures
        is_white_space(c) == white_spaces().contains(c),
{
    let all = white_spaces();
    let p = c as u32;
    if is_white_space(c) {
        let at: int = if p <= 0xD {
            p - 0x9
        } else if p == 0x20 {
            5
        } else if p == 0x85 {
            6
        } else if p == 0xA0 {
            7
        } else if p == 0x1680 {
            8
        } else if p <= 0x200A {
            9 + p - 0x2000
        } else if p == 0x2028 {
            20
        } else if p == 0x2029 {
            21
        } else if p == 0x202F {
            22
        } else if p == 0x205F {
            23
        } else {
            24
        };
        assert(all[at] == c);
    }
}

} // verus!
