//! Converting arrays between logical types and into the types a destination stores.
//!
//! Every conversion is exact: a column's type is the join of every type it received, so it holds
//! each incoming value as it is, and text or JSON renderings keep every value.

use crate::search::{first_where, lemma_first_is, lemma_first_is_none, lemma_first_where};
use crate::table::model::has_name;
use crate::table::temporal::TimeUnit;
use crate::table::types::{field_views, lemma_field_views, Field, FieldView, LogicalType, TypeView};
use crate::text::text_view;
use vstd::prelude::*;
use vstd::string::*;

verus! {

/// How an array of one logical type becomes one of another that holds every value of it.
#[derive(Debug)]
pub enum Conversion {
    /// The types are the same: the array takes the plain form of its type.
    Normalize,
    /// The array holds only nulls, and becomes nulls of the target.
    Nulls,
    /// Each value becomes its JSON text.
    Json,
    /// Dates become their midnights, in a zone where one is given.
    Midnights(TimeUnit, Option<String>),
    /// Wall-clock times of the first unit become instants of the second in a zone.
    Localized(TimeUnit, TimeUnit, String),
    /// Times of day become times of another unit.
    Times(TimeUnit),
    /// Each field of the target takes the values of a field of the array, or nulls.
    Struct(Vec<Source>),
    /// Each item is converted.
    List(Box<Conversion>),
    /// Arrow casts the array, failing on any value the target cannot hold.
    Cast,
}

/// Where a field of a struct takes its values from.
#[derive(Debug)]
pub enum Source {
    /// From the array's field at this position, converted.
    Field(usize, Conversion),
    /// From nowhere: the array has no such field.
    Nulls,
}

/// A conversion as a mathematical value.
pub ghost enum ConversionView {
    Normalize,
    Nulls,
    Json,
    Midnights(TimeUnit, Option<Seq<char>>),
    Localized(TimeUnit, TimeUnit, Seq<char>),
    Times(TimeUnit),
    Struct(Seq<SourceView>),
    List(Box<ConversionView>),
    Cast,
}

/// A source as a mathematical value.
pub ghost enum SourceView {
    Field(int, Box<ConversionView>),
    Nulls,
}

impl Conversion {
    /// The conversion as a mathematical value.
    pub open spec fn view(&self) -> ConversionView
        decreases self,
    {
        match *self {
            Conversion::Normalize => ConversionView::Normalize,
            Conversion::Nulls => ConversionView::Nulls,
            Conversion::Json => ConversionView::Json,
            Conversion::Midnights(unit, zone) => ConversionView::Midnights(unit, text_view(zone)),
            Conversion::Localized(from, unit, zone) => ConversionView::Localized(from, unit, zone@),
            Conversion::Times(unit) => ConversionView::Times(unit),
            Conversion::Struct(sources) => ConversionView::Struct(source_views(sources@)),
            Conversion::List(item) => ConversionView::List(Box::new(item.view())),
            Conversion::Cast => ConversionView::Cast,
        }
    }
}

impl Source {
    /// The source as a mathematical value.
    pub open spec fn view(&self) -> SourceView
        decreases self,
    {
        match *self {
            Source::Field(at, conversion) => SourceView::Field(
                at as int,
                Box::new(conversion.view()),
            ),
            Source::Nulls => SourceView::Nulls,
        }
    }
}

/// Sources as mathematical values.
pub open spec fn source_views(sources: Seq<Source>) -> Seq<SourceView>
    decreases sources,
{
    if sources.len() == 0 {
        Seq::empty()
    } else {
        source_views(sources.drop_last()).push(sources.last().view())
    }
}

/// How an array of `from` becomes one of `to`, which holds every value of `from`.
pub open spec fn conversion(from: TypeView, to: TypeView) -> ConversionView
    decreases to, 0nat,
{
    if from == to {
        ConversionView::Normalize
    } else if from == TypeView::Null {
        ConversionView::Nulls
    } else {
        match (from, to) {
            (_, TypeView::Json) => ConversionView::Json,
            (TypeView::Date, TypeView::Timestamp(unit, zone)) => ConversionView::Midnights(
                unit,
                zone,
            ),
            (
                TypeView::Timestamp(coarse, None),
                TypeView::Timestamp(unit, Some(zone)),
            ) => ConversionView::Localized(coarse, unit, zone),
            (TypeView::Time(_), TypeView::Time(unit)) => ConversionView::Times(unit),
            (TypeView::Struct(held), TypeView::Struct(wanted)) => ConversionView::Struct(
                sources(held, wanted, wanted.len() as int),
            ),
            (TypeView::List(held), TypeView::List(wanted)) => ConversionView::List(
                Box::new(conversion(held.logical, wanted.logical)),
            ),
            _ => ConversionView::Cast,
        }
    }
}

/// Where each of the first `n` of the `wanted` fields takes its values from: the first of the
/// `held` fields of its name, converted, or nowhere.
pub open spec fn sources(held: Seq<FieldView>, wanted: Seq<FieldView>, n: int) -> Seq<SourceView>
    decreases wanted, 1nat, n,
{
    if n <= 0 || n > wanted.len() {
        Seq::empty()
    } else {
        let field = wanted[n - 1];
        sources(held, wanted, n - 1).push(
            match first_where(held, has_name(field.name)) {
                Some(at) => SourceView::Field(
                    at,
                    Box::new(conversion(held[at].logical, field.logical)),
                ),
                None => SourceView::Nulls,
            },
        )
    }
}

proof fn lemma_push_source(sources: Seq<Source>, source: Source)
    ensures
        source_views(sources.push(source)) == source_views(sources).push(source@),
{
    assert(sources.push(source).drop_last() =~= sources);
}

/// How an array of `from` becomes one of `to`, which holds every value of `from`.
///
/// Nested dates stay wide until each meets its own target: a far date that a date column refuses,
/// JSON, text and timestamps hold.
pub fn convert(from: &LogicalType, to: &LogicalType) -> (how: Conversion)
    ensures
        how@ == conversion(from@, to@),
    decreases to, 0nat,
{
    if from.same(to) {
        return Conversion::Normalize;
    }
    match (from, to) {
        (LogicalType::Null, _) => Conversion::Nulls,
        (_, LogicalType::Json) => Conversion::Json,
        (LogicalType::Date, LogicalType::Timestamp(unit, zone)) => Conversion::Midnights(
            *unit,
            match zone {
                Some(zone) => Some(zone.clone()),
                None => None,
            },
        ),
        (
            LogicalType::Timestamp(coarse, None),
            LogicalType::Timestamp(unit, Some(zone)),
        ) => Conversion::Localized(*coarse, *unit, zone.clone()),
        (LogicalType::Time(_), LogicalType::Time(unit)) => Conversion::Times(*unit),
        (LogicalType::Struct(held), LogicalType::Struct(wanted)) => Conversion::Struct(
            struct_sources(held, wanted),
        ),
        (LogicalType::List(held), LogicalType::List(wanted)) => Conversion::List(
            Box::new(convert(&held.logical, &wanted.logical)),
        ),
        _ => Conversion::Cast,
    }
}

/// Where each of the `wanted` fields takes its values from.
fn struct_sources(held: &Vec<Field>, wanted: &Vec<Field>) -> (found: Vec<Source>)
    ensures
        source_views(found@) == sources(
            field_views(held@),
            field_views(wanted@),
            wanted@.len() as int,
        ),
        field_views(wanted@).len() == wanted@.len(),
    decreases wanted, 1nat,
{
    let ghost have = field_views(held@);
    let ghost want = field_views(wanted@);
    proof {
        lemma_field_views(held@);
        lemma_field_views(wanted@);
    }
    let mut found: Vec<Source> = Vec::new();
    let mut at: usize = 0;
    while at < wanted.len()
        invariant
            at <= wanted@.len(),
            have == field_views(held@),
            want == field_views(wanted@),
            have.len() == held@.len(),
            want.len() == wanted@.len(),
            forall|i: int| 0 <= i < held@.len() ==> #[trigger] have[i] == held@[i]@,
            forall|i: int| 0 <= i < wanted@.len() ==> #[trigger] want[i] == wanted@[i]@,
            source_views(found@) == sources(have, want, at as int),
        decreases wanted@.len() - at,
    {
        let field: &Field = &wanted[at];
        assert(decreases_to!(wanted => wanted@[at as int]));
        assert(want[at as int] == field@);
        let source: Source = match field_named(held, &field.name) {
            Some(index) => {
                assert(have[index as int] == held@[index as int]@);
                Source::Field(index, convert(&held[index].logical, &field.logical))
            },
            None => Source::Nulls,
        };
        proof {
            lemma_push_source(found@, source);
        }
        found.push(source);
        at = at + 1;
    }
    found
}

/// Where the first field of the name `name` stands.
pub fn field_named(fields: &Vec<Field>, name: &String) -> (at: Option<usize>)
    ensures
        match at {
            Some(at) => first_where(field_views(fields@), has_name(name@)) == Some(at as int)
                && at < fields@.len(),
            None => first_where(field_views(fields@), has_name(name@)) is None,
        },
{
    let ghost views = field_views(fields@);
    let ghost wanted = has_name(name@);
    proof {
        lemma_field_views(fields@);
    }
    let mut at: usize = 0;
    while at < fields.len()
        invariant
            at <= fields@.len(),
            views == field_views(fields@),
            views.len() == fields@.len(),
            forall|i: int| 0 <= i < fields@.len() ==> #[trigger] views[i] == fields@[i]@,
            wanted == has_name(name@),
            forall|i: int| 0 <= i < at ==> !wanted(#[trigger] views[i]),
        decreases fields@.len() - at,
    {
        assert(views[at as int] == fields@[at as int]@);
        if fields[at].name == *name {
            proof {
                lemma_first_is(views, wanted, at as int);
            }
            return Some(at);
        }
        at = at + 1;
    }
    proof {
        lemma_first_is_none(views, wanted);
    }
    None
}

/// A struct's conversion fills every field of the target: from the held field of its name, or
/// with nulls where none has it.
pub proof fn law_every_field_is_filled(held: Seq<FieldView>, wanted: Seq<FieldView>, n: int)
    requires
        0 <= n <= wanted.len(),
    ensures
        sources(held, wanted, n).len() == n,
        forall|i: int|
            0 <= i < n ==> match #[trigger] sources(held, wanted, n)[i] {
                SourceView::Field(at, how) => {
                    &&& 0 <= at < held.len()
                    &&& held[at].name == wanted[i].name
                    &&& *how == conversion(held[at].logical, wanted[i].logical)
                },
                SourceView::Nulls => forall|j: int|
                    0 <= j < held.len() ==> (#[trigger] held[j]).name != wanted[i].name,
            },
    decreases n,
{
    if n > 0 {
        law_every_field_is_filled(held, wanted, n - 1);
        let before = sources(held, wanted, n - 1);
        let field = wanted[n - 1];
        lemma_first_where(held, has_name(field.name));
        assert forall|i: int| 0 <= i < n implies match #[trigger] sources(held, wanted, n)[i] {
            SourceView::Field(at, how) => {
                &&& 0 <= at < held.len()
                &&& held[at].name == wanted[i].name
                &&& *how == conversion(held[at].logical, wanted[i].logical)
            },
            SourceView::Nulls => forall|j: int|
                0 <= j < held.len() ==> (#[trigger] held[j]).name != wanted[i].name,
        } by {
            if i < n - 1 {
                assert(sources(held, wanted, n)[i] == before[i]);
            } else if sources(held, wanted, n)[i] is Nulls {
                assert forall|j: int| 0 <= j < held.len() implies (#[trigger] held[j]).name
                    != wanted[i].name by {
                    assert(!(has_name(field.name))(held[j]));
                }
            }
        }
    }
}

/// How a value becomes text.
#[derive(Clone, Copy, Debug, PartialEq, Eq, Structural)]
pub enum TextForm {
    /// As JSON text: nested values and JSON.
    Json,
    /// As lower-case hex.
    Hex,
    /// As a hyphenated UUID.
    Uuid,
    /// As Arrow renders it, or exactly where Arrow cannot.
    Rendered,
}

/// How values of a type become text.
pub open spec fn text_form_of(logical: TypeView) -> TextForm {
    match logical {
        TypeView::Struct(_) | TypeView::List(_) | TypeView::Json => TextForm::Json,
        TypeView::Uuid => TextForm::Uuid,
        TypeView::Binary => TextForm::Hex,
        _ => TextForm::Rendered,
    }
}

/// How values of a type become text: UUIDs hyphenated, bytes in lower-case hex, nested values and
/// JSON as JSON text, anything else as Arrow renders it, or exactly where Arrow cannot.
pub fn text_form(logical: &LogicalType) -> (form: TextForm)
    ensures
        form == text_form_of(logical@),
{
    match logical {
        LogicalType::Struct(_) => TextForm::Json,
        LogicalType::List(_) => TextForm::Json,
        LogicalType::Json => TextForm::Json,
        LogicalType::Uuid => TextForm::Uuid,
        LogicalType::Binary => TextForm::Hex,
        _ => TextForm::Rendered,
    }
}

/// How values of `logical` are stored as `stored`: as they are, or as their text.
pub fn stored_form(logical: &LogicalType, stored: &LogicalType) -> (form: Option<TextForm>)
    ensures
        form == if stored@ == logical@ {
            None
        } else {
            Some(text_form_of(logical@))
        },
{
    if stored.same(logical) {
        None
    } else {
        Some(text_form(logical))
    }
}

/// A hexadecimal digit, in lower case.
pub open spec fn hex_digit(d: int) -> char {
    if d < 10 {
        (48 + d) as char
    } else {
        (87 + d) as char
    }
}

/// Whether a UUID has a hyphen before its byte at `index`.
pub open spec fn is_hyphenated(index: int) -> bool {
    index == 4 || index == 6 || index == 8 || index == 10
}

/// `bytes` in lower-case hex; a UUID's in its hyphenated form.
pub open spec fn hex_text(bytes: Seq<u8>, uuid: bool) -> Seq<char>
    decreases bytes.len(),
{
    if bytes.len() == 0 {
        Seq::empty()
    } else {
        let at = bytes.len() - 1;
        let byte = bytes.last() as int;
        hex_text(bytes.drop_last(), uuid) + (if uuid && is_hyphenated(at) {
            seq!['-']
        } else {
            Seq::empty()
        }) + seq![hex_digit(byte / 16), hex_digit(byte % 16)]
    }
}

/// A hexadecimal digit, in lower case.
fn hex(d: u8) -> (c: char)
    requires
        d < 16,
    ensures
        c == hex_digit(d as int),
{
    if d < 10 {
        (48 + d) as char
    } else {
        (87 + d) as char
    }
}

/// `bytes` in lower-case hex; a UUID's 16 bytes in its hyphenated form.
pub fn render_bytes(bytes: &[u8], uuid: bool) -> (text: String)
    ensures
        text@ == hex_text(bytes@, uuid),
{
    let mut text = String::new();
    let mut at: usize = 0;
    assert(bytes@.take(0) =~= Seq::<u8>::empty());
    while at < bytes.len()
        invariant
            at <= bytes@.len(),
            text@ == hex_text(bytes@.take(at as int), uuid),
        decreases bytes@.len() - at,
    {
        let ghost before = text@;
        proof {
            assert(bytes@.take(at + 1).drop_last() =~= bytes@.take(at as int));
            assert(bytes@.take(at + 1).last() == bytes@[at as int]);
        }
        if uuid && (at == 4 || at == 6 || at == 8 || at == 10) {
            text.push('-');
        }
        let byte: u8 = bytes[at];
        text.push(hex(byte / 16));
        text.push(hex(byte % 16));
        at = at + 1;
        assert(text@ =~= hex_text(bytes@.take(at as int), uuid));
    }
    assert(bytes@.take(at as int) =~= bytes@);
    text
}

/// How many hyphens the first `n` bytes of a UUID have.
spec fn hyphens(n: int, uuid: bool) -> int {
    if !uuid || n <= 4 {
        0
    } else if n <= 6 {
        1
    } else if n <= 8 {
        2
    } else if n <= 10 {
        3
    } else {
        4
    }
}

proof fn lemma_hex_len(bytes: Seq<u8>, uuid: bool)
    ensures
        hex_text(bytes, uuid).len() == 2 * bytes.len() + hyphens(bytes.len() as int, uuid),
    decreases bytes.len(),
{
    if bytes.len() > 0 {
        lemma_hex_len(bytes.drop_last(), uuid);
    }
}

proof fn lemma_hex_digits_differ(a: u8, b: u8)
    requires
        hex_digit(a as int / 16) == hex_digit(b as int / 16),
        hex_digit(a as int % 16) == hex_digit(b as int % 16),
    ensures
        a == b,
{
}

/// Rendered bytes keep every value: no two byte strings have the same text.
pub proof fn law_rendered_bytes_are_distinct(a: Seq<u8>, b: Seq<u8>, uuid: bool)
    requires
        hex_text(a, uuid) == hex_text(b, uuid),
    ensures
        a == b,
    decreases a.len(),
{
    lemma_hex_len(a, uuid);
    lemma_hex_len(b, uuid);
    if a.len() > 0 && b.len() > 0 {
        let text = hex_text(a, uuid);
        let n = text.len();
        let mark = if uuid && is_hyphenated(a.len() - 1) {
            1int
        } else {
            0int
        };
        assert(a.len() == b.len());
        assert(text[n - 1] == hex_digit(a.last() as int % 16));
        assert(text[n - 2] == hex_digit(a.last() as int / 16));
        assert(hex_text(b, uuid)[n - 1] == hex_digit(b.last() as int % 16));
        assert(hex_text(b, uuid)[n - 2] == hex_digit(b.last() as int / 16));
        lemma_hex_digits_differ(a.last(), b.last());
        lemma_hex_len(a.drop_last(), uuid);
        assert(hex_text(a.drop_last(), uuid) =~= text.take(n - 2 - mark));
        assert(hex_text(b.drop_last(), uuid) =~= hex_text(b, uuid).take(n - 2 - mark));
        law_rendered_bytes_are_distinct(a.drop_last(), b.drop_last(), uuid);
        assert(a =~= a.drop_last().push(a.last()));
        assert(b =~= b.drop_last().push(b.last()));
    } else {
        assert(a =~= b);
    }
}

/// `text` with its hyphens left out.
pub open spec fn without_hyphens(text: Seq<char>) -> Seq<char>
    decreases text.len(),
{
    if text.len() == 0 {
        Seq::empty()
    } else if text.last() == '-' {
        without_hyphens(text.drop_last())
    } else {
        without_hyphens(text.drop_last()).push(text.last())
    }
}

/// What the character `c` counts as a hexadecimal digit in lower case; none where it is no digit.
pub open spec fn digit_of(c: char) -> Option<int> {
    if '0' <= c <= '9' {
        Some(c as int - '0' as int)
    } else if 'a' <= c <= 'f' {
        Some(c as int - 'a' as int + 10)
    } else {
        None
    }
}

/// Whether the pair of digits at `i` reads as `byte`, the digit that counts sixteens first.
pub open spec fn pair_reads_as(digits: Seq<char>, i: int, byte: u8) -> bool {
    match (digit_of(digits[2 * i]), digit_of(digits[2 * i + 1])) {
        (Some(sixteens), Some(ones)) => byte == 16 * sixteens + ones,
        _ => false,
    }
}

/// Whether `digits` read as `bytes`: a pair for each, in their order.
pub open spec fn reads_as(digits: Seq<char>, bytes: Seq<u8>) -> bool {
    &&& digits.len() == 2 * bytes.len()
    &&& forall|i: int| 0 <= i < bytes.len() ==> #[trigger] pair_reads_as(digits, i, bytes[i])
}

/// What a digit is read as is what it was rendered from, and no digit is a hyphen.
proof fn lemma_digit_reads_back(d: int)
    requires
        0 <= d < 16,
    ensures
        digit_of(hex_digit(d)) == Some(d),
        hex_digit(d) != '-',
{
}

proof fn lemma_without_hyphens_adds(text: Seq<char>, more: Seq<char>)
    ensures
        without_hyphens(text + more) == without_hyphens(text) + without_hyphens(more),
    decreases more.len(),
{
    if more.len() == 0 {
        assert(text + more =~= text);
        assert(without_hyphens(text) + Seq::<char>::empty() =~= without_hyphens(text));
    } else {
        assert((text + more).drop_last() =~= text + more.drop_last());
        lemma_without_hyphens_adds(text, more.drop_last());
        assert(without_hyphens(text + more) =~= without_hyphens(text) + without_hyphens(more));
    }
}

/// Rendered bytes read back as the bytes, digit by digit: with its hyphens left out, the text is
/// two lower-case hexadecimal digits for each byte, in the bytes' order, the digit that counts
/// sixteens first.
pub proof fn law_rendered_bytes_read_back(bytes: Seq<u8>, uuid: bool)
    ensures
        reads_as(without_hyphens(hex_text(bytes, uuid)), bytes),
    decreases bytes.len(),
{
    if bytes.len() > 0 {
        let front = bytes.drop_last();
        let at = bytes.len() - 1;
        let byte = bytes.last() as int;
        let mark = if uuid && is_hyphenated(at) {
            seq!['-']
        } else {
            Seq::<char>::empty()
        };
        let high = byte / 16;
        let low = byte % 16;
        let pair = seq![hex_digit(high), hex_digit(low)];
        law_rendered_bytes_read_back(front, uuid);
        lemma_digit_reads_back(high);
        lemma_digit_reads_back(low);
        lemma_without_hyphens_adds(hex_text(front, uuid) + mark, pair);
        lemma_without_hyphens_adds(hex_text(front, uuid), mark);
        assert(without_hyphens(mark) =~= Seq::<char>::empty()) by {
            reveal_with_fuel(without_hyphens, 2);
        }
        assert(without_hyphens(pair) =~= pair) by {
            reveal_with_fuel(without_hyphens, 3);
            assert(pair.drop_last() =~= seq![hex_digit(high)]);
            assert(pair.drop_last().drop_last() =~= Seq::<char>::empty());
        }
        let before = without_hyphens(hex_text(front, uuid));
        let digits = without_hyphens(hex_text(bytes, uuid));
        assert(digits =~= before + pair);
        assert forall|i: int| 0 <= i < bytes.len() implies #[trigger] pair_reads_as(
            digits,
            i,
            bytes[i],
        ) by {
            if i < at {
                assert(digits[2 * i] == before[2 * i]);
                assert(digits[2 * i + 1] == before[2 * i + 1]);
                assert(pair_reads_as(before, i, front[i]));
            } else {
                assert(digits[2 * i] == hex_digit(high));
                assert(digits[2 * i + 1] == hex_digit(low));
            }
        }
        assert(digits.len() == 2 * bytes.len());
    }
}

/// Bytes that are no UUID's are rendered without a hyphen. A UUID's sixteen bytes have four, which
/// part its text into eight digits, four, four, four and twelve.
pub proof fn law_hyphens_part_a_uuid(bytes: Seq<u8>, uuid: bool, i: int)
    requires
        uuid ==> bytes.len() == 16,
        0 <= i < hex_text(bytes, uuid).len(),
    ensures
        uuid ==> hex_text(bytes, uuid).len() == 36,
        hex_text(bytes, uuid)[i] == '-' <==> uuid && (i == 8 || i == 13 || i == 18 || i == 23),
{
    lemma_hex_len(bytes, uuid);
    lemma_hyphens_stand(bytes, uuid, i);
}

proof fn lemma_hyphens_stand(bytes: Seq<u8>, uuid: bool, i: int)
    requires
        uuid ==> bytes.len() <= 16,
        0 <= i < hex_text(bytes, uuid).len(),
    ensures
        hex_text(bytes, uuid)[i] == '-' <==> uuid && (i == 8 || i == 13 || i == 18 || i == 23),
    decreases bytes.len(),
{
    let front = bytes.drop_last();
    let byte = bytes.last() as int;
    lemma_hex_len(bytes, uuid);
    lemma_hex_len(front, uuid);
    lemma_digit_reads_back(byte / 16);
    lemma_digit_reads_back(byte % 16);
    if i < hex_text(front, uuid).len() {
        lemma_hyphens_stand(front, uuid, i);
        assert(hex_text(bytes, uuid)[i] == hex_text(front, uuid)[i]);
    }
}

/// A conversion is what its two types ask for: the plain form where they are the same, nulls where
/// only nulls come, JSON text where that is wanted, midnights of a date in the unit and the zone of
/// the instant, instants of a wall-clock time in them, times of day in the unit wanted; a struct
/// field by field and a list item by item; and Arrow casts the rest.
pub proof fn law_conversions_are_what_the_types_ask_for(from: TypeView, to: TypeView)
    ensures
        ({
            let how = conversion(from, to);
            &&& how is Normalize <==> from == to
            &&& how is Nulls <==> from is Null && !(to is Null)
            &&& how is Json <==> to is Json && !(from is Json) && !(from is Null)
            &&& how is Midnights <==> from is Date && to is Timestamp
            &&& how is Midnights ==> to == TypeView::Timestamp(
                how->Midnights_0,
                how->Midnights_1,
            )
            &&& how is Localized <==> from is Timestamp && from->Timestamp_1 is None
                && to is Timestamp && to->Timestamp_1 is Some
            &&& how is Localized ==> from == TypeView::Timestamp(how->Localized_0, None) && to
                == TypeView::Timestamp(how->Localized_1, Some(how->Localized_2))
            &&& how is Times <==> from is Time && to is Time && from != to
            &&& how is Times ==> to == TypeView::Time(how->Times_0)
            &&& how is Struct <==> from is Struct && to is Struct && from != to
            &&& how is Struct ==> how->Struct_0.len() == to->Struct_0.len() && forall|i: int|
                0 <= i < to->Struct_0.len() ==> match #[trigger] how->Struct_0[i] {
                    SourceView::Field(at, part) => {
                        &&& 0 <= at < from->Struct_0.len()
                        &&& from->Struct_0[at].name == to->Struct_0[i].name
                        &&& *part == conversion(
                            from->Struct_0[at].logical,
                            to->Struct_0[i].logical,
                        )
                    },
                    SourceView::Nulls => forall|j: int|
                        0 <= j < from->Struct_0.len() ==> (#[trigger] from->Struct_0[j]).name
                            != to->Struct_0[i].name,
                }
            &&& how is List <==> from is List && to is List && from != to
            &&& how is List ==> *how->List_0 == conversion(
                from->List_0.logical,
                to->List_0.logical,
            )
        }),
{
    if let (TypeView::Struct(held), TypeView::Struct(wanted)) = (from, to) {
        law_every_field_is_filled(held, wanted, wanted.len() as int);
    }
}

/// Every type becomes text in one form: only bytes in hex, only UUIDs hyphenated, nested values and
/// JSON as JSON text, and all else as it is rendered.
pub proof fn law_each_type_has_one_text_form(logical: TypeView)
    ensures
        text_form_of(logical) == TextForm::Hex <==> logical is Binary,
        text_form_of(logical) == TextForm::Uuid <==> logical is Uuid,
        text_form_of(logical) == TextForm::Json <==> logical is Struct || logical is List
            || logical is Json,
{
}

} // verus!
