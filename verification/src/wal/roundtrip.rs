//! What the writer appends, a scan reads back: the same records, in the same order.

use crate::wal::lines::{
    content_at, is_blank, is_white_space, line_views, manifest_lines, read_bytes, read_to,
    records_from, terminator_of, FaultView, ManifestFault, ReadLine,
};
use crate::wal::record::{
    classify, encodes, frame_spec, is_hex, law_encoded_lines_verify, WalRecord,
    MAX_MANIFEST_LINE_BYTES,
};
use crate::wal::writer::law_appended_lines_read_back;
use vstd::prelude::*;
use vstd::utf8::*;

verus! {

/// The manifest made of `lines`, each with its line end.
pub open spec fn written(lines: Seq<Seq<u8>>) -> Seq<u8>
    decreases lines.len(),
{
    if lines.len() == 0 {
        Seq::empty()
    } else {
        lines[0].push(10u8) + written(lines.drop_first())
    }
}

/// Whether `lines` are what the writer appends for records whose JSON is `jsons`: text without a
/// line end in it, within the cap.
pub open spec fn appended(lines: Seq<Seq<u8>>, jsons: Seq<Seq<u8>>) -> bool {
    &&& lines.len() == jsons.len()
    &&& forall|i: int| 0 <= i < lines.len() ==> #[trigger] appended_as(lines[i], jsons[i])
}

/// Whether `line` is what the writer appends for a record whose JSON is `json`.
pub open spec fn appended_as(line: Seq<u8>, json: Seq<u8>) -> bool {
    &&& encodes(line, json)
    &&& json.len() > 0
    &&& valid_utf8(json)
    &&& line.len() <= MAX_MANIFEST_LINE_BYTES
    &&& forall|k: int| 0 <= k < json.len() ==> #[trigger] json[k] != 10u8
}

/// The lines' texts, each ended by one byte.
pub open spec fn texts(lines: Seq<Seq<u8>>) -> Seq<(Seq<char>, int)> {
    lines.map_values(|line: Seq<u8>| (decode_utf8(line), 1int))
}

proof fn lemma_ascii_is_utf8(bytes: Seq<u8>)
    requires
        forall|i: int| 0 <= i < bytes.len() ==> #[trigger] bytes[i] < 128,
    ensures
        valid_utf8(bytes),
    decreases bytes.len(),
{
    if bytes.len() > 0 {
        let b = bytes[0];
        assert(is_leading_byte_width_1(b)) by {
            utf8_byte_ranges_bitwise(b);
        }
        assert(valid_first_scalar(bytes)) by {
            assert(bytes[0] < 128);
            let c = leading_bits_width_1(b);
            assert(b < 128 ==> (b & 0x7F) as u32 == b as u32) by (bit_vector);
        }
        lemma_ascii_is_utf8(pop_first_scalar(bytes));
    }
}

proof fn lemma_line_is_utf8(line: Seq<u8>, json: Seq<u8>)
    requires
        appended_as(line, json),
    ensures
        valid_utf8(line),
{
    let trailer = line.skip(json.len() as int);
    assert(line =~= json + trailer);
    assert forall|i: int| 0 <= i < trailer.len() implies #[trigger] trailer[i] < 128 by {
        if i > 0 {
            assert(is_hex(line[json.len() + i]));
        }
    }
    lemma_ascii_is_utf8(trailer);
    valid_utf8_concat(json, trailer);
}

/// The last byte of a text's UTF-8 is that of its last character's.
proof fn lemma_last_byte(text: Seq<char>)
    requires
        text.len() > 0,
    ensures
        encode_utf8(text).len() > 0,
        encode_utf8(text).last() == encode_scalar(text.last() as u32).last(),
    decreases text.len(),
{
    let first = encode_scalar(text[0] as u32);
    let rest = text.drop_first();
    if rest.len() > 0 {
        lemma_last_byte(rest);
        assert(rest.last() == text.last());
        assert(encode_utf8(text).last() == encode_utf8(rest).last());
    } else {
        assert(encode_utf8(rest) =~= Seq::empty());
        assert(encode_utf8(text) =~= first);
    }
}

/// White space ends in no hex character.
proof fn lemma_white_space_is_not_hex(c: char)
    requires
        is_white_space(c),
    ensures
        !is_hex(encode_scalar(c as u32).last()),
{
    let u = c as u32;
    if u < 128 {
        assert(u < 128 ==> (u & 0x7F) as u8 == u as u8) by (bit_vector);
        assert(leading_byte_width_1(u) == u as u8);
    } else {
        assert(0x80u8 | ((u & 0x3F) as u8) >= 128u8) by (bit_vector);
        assert(last_continuation_byte(u) >= 128);
    }
}

/// A line with a trailer is not blank.
proof fn lemma_lines_are_not_blank(line: Seq<u8>, json: Seq<u8>)
    requires
        appended_as(line, json),
    ensures
        !is_blank(decode_utf8(line)),
{
    lemma_line_is_utf8(line, json);
    decode_utf8_encode_utf8(line);
    let text = decode_utf8(line);
    if text.len() == 0 {
        assert(encode_utf8(text) =~= Seq::empty());
    } else {
        lemma_last_byte(text);
        assert(is_hex(line[line.len() - 1]));
        if is_white_space(text.last()) {
            lemma_white_space_is_not_hex(text.last());
        }
        assert(!is_white_space(text[text.len() - 1]));
    }
}

proof fn lemma_lines_read_back(
    before: Seq<u8>,
    lines: Seq<Seq<u8>>,
    jsons: Seq<Seq<u8>>,
    budget: u64,
)
    requires
        appended(lines, jsons),
        before.len() + written(lines).len() <= budget,
    ensures
        manifest_lines(
            before + written(lines),
            before.len() as int,
            before.len() as int,
            budget,
            None,
        ) == (texts(lines), None::<FaultView>),
    decreases lines.len(),
{
    let bytes = before + written(lines);
    let start = before.len() as int;
    if lines.len() == 0 {
        assert(texts(lines) =~= Seq::empty());
    } else {
        let line = lines[0];
        let rest = lines.drop_first();
        assert(appended_as(line, jsons[0]));
        assert(appended(rest, jsons.drop_first())) by {
            assert forall|i: int| 0 <= i < rest.len() implies #[trigger] appended_as(
                rest[i],
                jsons.drop_first()[i],
            ) by {
                assert(appended_as(lines[i + 1], jsons[i + 1]));
            }
        }
        let after = before + line.push(10u8);
        assert(bytes =~= before + line.push(10u8) + written(rest));
        assert(bytes =~= after + written(rest));
        law_appended_lines_read_back(before, jsons[0], line, written(rest));
        lemma_line_is_utf8(line, jsons[0]);
        lemma_lines_read_back(after, rest, jsons.drop_first(), budget);
        let next = read_to(bytes, start, start);
        assert(next == after.len());
        assert(terminator_of(read_bytes(bytes, start)) == 1) by {
            assert(read_bytes(bytes, start).len() == line.len() + 1);
            assert(content_at(bytes, start).len() == line.len());
        }
        assert(texts(lines) =~= seq![(decode_utf8(line), 1int)] + texts(rest));
    }
}

proof fn lemma_records_read_back(
    read: Seq<ReadLine>,
    lines: Seq<Seq<u8>>,
    jsons: Seq<Seq<u8>>,
    decoded: Seq<Result<WalRecord, String>>,
    records: Seq<WalRecord>,
    i: int,
)
    requires
        appended(lines, jsons),
        line_views(read) == texts(lines),
        decoded.len() == lines.len(),
        records.len() == lines.len(),
        forall|k: int|
            0 <= k < lines.len() ==> #[trigger] decoded[k] == Ok::<WalRecord, String>(records[k]),
        0 <= i <= lines.len(),
    ensures
        records_from(read, None, decoded, i, records.take(i)) == Ok::<
            Seq<WalRecord>,
            ManifestFault,
        >(records),
    decreases lines.len() - i,
{
    assert(line_views(read).len() == read.len());
    if i == lines.len() {
        assert(records.take(i) =~= records);
    } else {
        let line = lines[i];
        assert(appended_as(line, jsons[i]));
        lemma_line_is_utf8(line, jsons[i]);
        lemma_lines_are_not_blank(line, jsons[i]);
        decode_utf8_encode_utf8(line);
        assert(line_views(read)[i] == texts(lines)[i]);
        assert(read[i].text@ == decode_utf8(line));
        law_encoded_lines_verify(jsons[i], line);
        assert(classify(frame_spec(line), decoded[i]) is Record);
        assert(records.take(i + 1) =~= records.take(i).push(records[i]));
        lemma_records_read_back(read, lines, jsons, decoded, records, i + 1);
    }
}

/// A manifest of lines the writer appended reads back line by line, and gives exactly the records
/// that were written, in the order they were, where each line's JSON decodes as its record and the
/// manifest is within the budget.
pub proof fn law_written_records_scan_back(
    lines: Seq<Seq<u8>>,
    jsons: Seq<Seq<u8>>,
    records: Seq<WalRecord>,
    budget: u64,
    read: Seq<ReadLine>,
    decoded: Seq<Result<WalRecord, String>>,
)
    requires
        appended(lines, jsons),
        written(lines).len() <= budget,
        line_views(read) == manifest_lines(written(lines), 0, 0, budget, None).0,
        decoded.len() == lines.len(),
        records.len() == lines.len(),
        forall|k: int|
            0 <= k < lines.len() ==> #[trigger] decoded[k] == Ok::<WalRecord, String>(records[k]),
    ensures
        manifest_lines(written(lines), 0, 0, budget, None).1 is None,
        records_from(read, None, decoded, 0, Seq::empty()) == Ok::<Seq<WalRecord>, ManifestFault>(
            records,
        ),
{
    lemma_lines_read_back(Seq::empty(), lines, jsons, budget);
    assert(Seq::<u8>::empty() + written(lines) =~= written(lines));
    assert(records.take(0) =~= Seq::empty());
    lemma_records_read_back(read, lines, jsons, decoded, records, 0);
}

} // verus!
