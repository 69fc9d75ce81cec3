//! How arrays are laid out, and what becomes of their layouts: encodings decoded, maps as lists,
//! dates wide; and how their values are written as JSON.

use vstd::prelude::*;
use vstd::string::*;

verus! {

/// How an array is laid out.
#[derive(Debug)]
pub enum Layout {
    /// Days in 32 bits.
    Date32,
    /// Days in 64 bits, as milliseconds.
    Date64,
    /// Keys of one layout into values of another.
    Dictionary(Box<Layout>, Box<Layout>),
    /// Runs of equal values.
    RunEndEncoded(Box<Part>, Box<Part>),
    Struct(Vec<Part>),
    List(Box<Part>),
    LargeList(Box<Part>),
    ListView(Box<Part>),
    LargeListView(Box<Part>),
    FixedSizeList(Box<Part>, i32),
    /// A map: entries of keys and values, sorted by key or not.
    Entries(Box<Part>, bool),
    /// Any other layout, which holds no other, by its name.
    Plain(String),
}

/// A part of a layout.
#[derive(Debug)]
pub struct Part {
    pub name: String,
    pub layout: Layout,
    pub nullable: bool,
}

/// A layout as a mathematical value.
pub ghost enum LayoutView {
    Date32,
    Date64,
    Dictionary(Box<LayoutView>, Box<LayoutView>),
    RunEndEncoded(Box<PartView>, Box<PartView>),
    Struct(Seq<PartView>),
    List(Box<PartView>),
    LargeList(Box<PartView>),
    ListView(Box<PartView>),
    LargeListView(Box<PartView>),
    FixedSizeList(Box<PartView>, i32),
    Entries(Box<PartView>, bool),
    Plain(Seq<char>),
}

/// A part as a mathematical value.
pub ghost struct PartView {
    pub name: Seq<char>,
    pub layout: LayoutView,
    pub nullable: bool,
}

impl Layout {
    /// The layout as a mathematical value.
    pub open spec fn view(&self) -> LayoutView
        decreases self,
    {
        match *self {
            Layout::Date32 => LayoutView::Date32,
            Layout::Date64 => LayoutView::Date64,
            Layout::Dictionary(keys, values) => LayoutView::Dictionary(
                Box::new(keys.view()),
                Box::new(values.view()),
            ),
            Layout::RunEndEncoded(ends, values) => LayoutView::RunEndEncoded(
                Box::new(ends.view()),
                Box::new(values.view()),
            ),
            Layout::Struct(parts) => LayoutView::Struct(part_views(parts@)),
            Layout::List(item) => LayoutView::List(Box::new(item.view())),
            Layout::LargeList(item) => LayoutView::LargeList(Box::new(item.view())),
            Layout::ListView(item) => LayoutView::ListView(Box::new(item.view())),
            Layout::LargeListView(item) => LayoutView::LargeListView(Box::new(item.view())),
            Layout::FixedSizeList(item, size) => LayoutView::FixedSizeList(
                Box::new(item.view()),
                size,
            ),
            Layout::Entries(entries, sorted) => LayoutView::Entries(Box::new(entries.view()), sorted),
            Layout::Plain(name) => LayoutView::Plain(name@),
        }
    }
}

impl Part {
    /// The part as a mathematical value.
    pub open spec fn view(&self) -> PartView
        decreases self,
    {
        PartView { name: self.name@, layout: self.layout.view(), nullable: self.nullable }
    }
}

/// Parts as mathematical values.
pub open spec fn part_views(parts: Seq<Part>) -> Seq<PartView>
    decreases parts,
{
    if parts.len() == 0 {
        Seq::empty()
    } else {
        part_views(parts.drop_last()).push(parts.last().view())
    }
}

/// What is done to a layout, at any depth.
#[derive(Clone, Copy, Debug, PartialEq, Eq, Structural)]
pub enum Rework {
    /// Dictionary and run-end encodings become the layout of their values.
    Decode,
    /// Dates become wide, which hold every day a narrow one does, and the far ones only they do.
    Widen,
    /// Maps become the lists of entries they hold, and views of lists plain lists.
    Unmap,
}

impl PartView {
    /// The part, its layout reworked.
    pub open spec fn reworked(self, how: Rework) -> PartView
        decreases self,
    {
        PartView { layout: self.layout.reworked(how), ..self }
    }
}

/// The parts, their layouts reworked.
pub open spec fn reworked_parts(parts: Seq<PartView>, how: Rework) -> Seq<PartView>
    decreases parts,
{
    if parts.len() == 0 {
        Seq::empty()
    } else {
        reworked_parts(parts.drop_last(), how).push(parts.last().reworked(how))
    }
}

impl LayoutView {
    /// The layout, reworked at the depths that the rework reaches: every one for decoding,
    /// structs and lists for widening, and all but encodings for unmapping.
    pub open spec fn reworked(self, how: Rework) -> LayoutView
        decreases self,
    {
        match (self, how) {
            (LayoutView::Dictionary(_, values), Rework::Decode) => values.reworked(how),
            (LayoutView::RunEndEncoded(_, values), Rework::Decode) => values.layout.reworked(how),
            (LayoutView::Date32, Rework::Widen) => LayoutView::Date64,
            (LayoutView::Entries(entries, _), Rework::Unmap) => LayoutView::List(
                Box::new(entries.reworked(how)),
            ),
            (LayoutView::ListView(item), Rework::Unmap) => LayoutView::List(
                Box::new(item.reworked(how)),
            ),
            (LayoutView::LargeListView(item), Rework::Unmap) => LayoutView::LargeList(
                Box::new(item.reworked(how)),
            ),
            (LayoutView::Struct(parts), _) => LayoutView::Struct(reworked_parts(parts, how)),
            (LayoutView::List(item), _) => LayoutView::List(Box::new(item.reworked(how))),
            (LayoutView::LargeList(item), Rework::Decode | Rework::Unmap) => LayoutView::LargeList(
                Box::new(item.reworked(how)),
            ),
            (LayoutView::ListView(item), Rework::Decode) => LayoutView::ListView(
                Box::new(item.reworked(how)),
            ),
            (LayoutView::LargeListView(item), Rework::Decode) => LayoutView::LargeListView(
                Box::new(item.reworked(how)),
            ),
            (
                LayoutView::FixedSizeList(item, size),
                Rework::Decode | Rework::Unmap,
            ) => LayoutView::FixedSizeList(Box::new(item.reworked(how)), size),
            (LayoutView::Entries(entries, sorted), Rework::Decode) => LayoutView::Entries(
                Box::new(entries.reworked(how)),
                sorted,
            ),
            (other, _) => other,
        }
    }
}

proof fn lemma_push_part(parts: Seq<Part>, part: Part)
    ensures
        part_views(parts.push(part)) == part_views(parts).push(part@),
{
    assert(parts.push(part).drop_last() =~= parts);
}

proof fn lemma_take_parts(parts: Seq<Part>, n: int)
    requires
        0 <= n < parts.len(),
    ensures
        part_views(parts.take(n + 1)) == part_views(parts.take(n)).push(parts[n]@),
{
    assert(parts.take(n + 1).drop_last() =~= parts.take(n));
}

impl Clone for Layout {
    fn clone(&self) -> (copy: Layout)
        ensures
            copy@ == self@,
        decreases self,
    {
        match self {
            Layout::Date32 => Layout::Date32,
            Layout::Date64 => Layout::Date64,
            Layout::Dictionary(keys, values) => Layout::Dictionary(
                Box::new((**keys).clone()),
                Box::new((**values).clone()),
            ),
            Layout::RunEndEncoded(ends, values) => Layout::RunEndEncoded(
                Box::new((**ends).clone()),
                Box::new((**values).clone()),
            ),
            Layout::Struct(parts) => Layout::Struct(clone_parts(parts)),
            Layout::List(item) => Layout::List(Box::new((**item).clone())),
            Layout::LargeList(item) => Layout::LargeList(Box::new((**item).clone())),
            Layout::ListView(item) => Layout::ListView(Box::new((**item).clone())),
            Layout::LargeListView(item) => Layout::LargeListView(Box::new((**item).clone())),
            Layout::FixedSizeList(item, size) => Layout::FixedSizeList(
                Box::new((**item).clone()),
                *size,
            ),
            Layout::Entries(entries, sorted) => Layout::Entries(Box::new((**entries).clone()), *sorted),
            Layout::Plain(name) => Layout::Plain(name.clone()),
        }
    }
}

impl Clone for Part {
    fn clone(&self) -> (copy: Part)
        ensures
            copy@ == self@,
        decreases self,
    {
        Part { name: self.name.clone(), layout: self.layout.clone(), nullable: self.nullable }
    }
}

fn clone_parts(parts: &Vec<Part>) -> (copy: Vec<Part>)
    ensures
        part_views(copy@) == part_views(parts@),
    decreases parts,
{
    let mut copy: Vec<Part> = Vec::new();
    let mut at: usize = 0;
    assert(parts@.take(0) =~= copy@);
    while at < parts.len()
        invariant
            at <= parts@.len(),
            part_views(copy@) == part_views(parts@.take(at as int)),
        decreases parts@.len() - at,
    {
        assert(decreases_to!(parts => parts@[at as int]));
        let part: Part = parts[at].clone();
        proof {
            lemma_push_part(copy@, part);
            lemma_take_parts(parts@, at as int);
        }
        copy.push(part);
        at = at + 1;
    }
    assert(parts@.take(at as int) =~= parts@);
    copy
}

/// A layout, reworked.
pub fn rework(layout: &Layout, how: Rework) -> (done: Layout)
    ensures
        done@ == layout@.reworked(how),
    decreases layout,
{
    match (layout, how) {
        (Layout::Dictionary(_, values), Rework::Decode) => rework(values, how),
        (Layout::RunEndEncoded(_, values), Rework::Decode) => {
            assert(values@.layout == values.layout@);
            rework(&values.layout, how)
        },
        (Layout::Date32, Rework::Widen) => Layout::Date64,
        (Layout::Entries(entries, _), Rework::Unmap) => Layout::List(Box::new(rework_part(entries, how))),
        (Layout::ListView(item), Rework::Unmap) => Layout::List(Box::new(rework_part(item, how))),
        (Layout::LargeListView(item), Rework::Unmap) => Layout::LargeList(
            Box::new(rework_part(item, how)),
        ),
        (Layout::Struct(parts), _) => Layout::Struct(rework_parts(parts, how)),
        (Layout::List(item), _) => Layout::List(Box::new(rework_part(item, how))),
        (Layout::LargeList(item), Rework::Decode) => Layout::LargeList(
            Box::new(rework_part(item, how)),
        ),
        (Layout::LargeList(item), Rework::Unmap) => Layout::LargeList(
            Box::new(rework_part(item, how)),
        ),
        (Layout::ListView(item), Rework::Decode) => Layout::ListView(
            Box::new(rework_part(item, how)),
        ),
        (Layout::LargeListView(item), Rework::Decode) => Layout::LargeListView(
            Box::new(rework_part(item, how)),
        ),
        (Layout::FixedSizeList(item, size), Rework::Decode) => Layout::FixedSizeList(
            Box::new(rework_part(item, how)),
            *size,
        ),
        (Layout::FixedSizeList(item, size), Rework::Unmap) => Layout::FixedSizeList(
            Box::new(rework_part(item, how)),
            *size,
        ),
        (Layout::Entries(entries, sorted), Rework::Decode) => Layout::Entries(
            Box::new(rework_part(entries, how)),
            *sorted,
        ),
        (other, _) => other.clone(),
    }
}

fn rework_part(part: &Part, how: Rework) -> (done: Part)
    ensures
        done@ == part@.reworked(how),
    decreases part,
{
    Part { name: part.name.clone(), layout: rework(&part.layout, how), nullable: part.nullable }
}

fn rework_parts(parts: &Vec<Part>, how: Rework) -> (done: Vec<Part>)
    ensures
        part_views(done@) == reworked_parts(part_views(parts@), how),
    decreases parts,
{
    let mut done: Vec<Part> = Vec::new();
    let mut at: usize = 0;
    assert(parts@.take(0) =~= done@);
    while at < parts.len()
        invariant
            at <= parts@.len(),
            part_views(done@) == reworked_parts(part_views(parts@.take(at as int)), how),
        decreases parts@.len() - at,
    {
        assert(decreases_to!(parts => parts@[at as int]));
        let part: Part = rework_part(&parts[at], how);
        proof {
            lemma_push_part(done@, part);
            lemma_take_parts(parts@, at as int);
            let views = part_views(parts@.take(at as int));
            assert(views.push(parts@[at as int]@).drop_last() =~= views);
        }
        done.push(part);
        at = at + 1;
    }
    assert(parts@.take(at as int) =~= parts@);
    done
}

/// `layout` with every dictionary and run-end encoding in it, at any depth, as its values'
/// layout.
///
/// Filtering rows out of an encoding leaves their values in it, and a value no row holds must not
/// fail a conversion: decoded, only the values rows hold remain.
pub fn decoded_type(layout: &Layout) -> (decoded: Layout)
    ensures
        decoded@ == layout@.reworked(Rework::Decode),
{
    rework(layout, Rework::Decode)
}

/// `layout` with its dates, in structs and lists at any depth, wide.
pub fn wide_dates(layout: &Layout) -> (wide: Layout)
    ensures
        wide@ == layout@.reworked(Rework::Widen),
{
    rework(layout, Rework::Widen)
}

/// `layout` with every map in it, at any depth, as the list of key and value structs it holds,
/// which Arrow casts where it casts no map.
pub fn unmapped(layout: &Layout) -> (unmapped: Layout)
    ensures
        unmapped@ == layout@.reworked(Rework::Unmap),
{
    rework(layout, Rework::Unmap)
}

impl LayoutView {
    /// Whether the layout is what the rework removes, itself.
    pub open spec fn is_removed(self, how: Rework) -> bool {
        match how {
            Rework::Decode => self is Dictionary || self is RunEndEncoded,
            Rework::Widen => self is Date32,
            Rework::Unmap => self is Entries || self is ListView || self is LargeListView,
        }
    }

    /// Whether the layout holds what the rework removes, at the depths it reaches.
    pub open spec fn holds(self, how: Rework) -> bool
        decreases self,
    {
        self.is_removed(how) || match self {
            LayoutView::Struct(parts) => exists|i: int|
                0 <= i < parts.len() && (#[trigger] parts[i]).layout.holds(how),
            LayoutView::List(item) => item.layout.holds(how),
            LayoutView::LargeList(item) => how != Rework::Widen && item.layout.holds(how),
            LayoutView::ListView(item) => how == Rework::Decode && item.layout.holds(how),
            LayoutView::LargeListView(item) => how == Rework::Decode && item.layout.holds(how),
            LayoutView::FixedSizeList(item, _) => how != Rework::Widen && item.layout.holds(how),
            LayoutView::Entries(entries, _) => how == Rework::Decode && entries.layout.holds(how),
            _ => false,
        }
    }
}

/// A reworked layout holds nothing of what the rework removes, and a layout that holds nothing of
/// it is left as it is: reworking twice is reworking once.
pub proof fn law_reworking_removes_all(layout: LayoutView, how: Rework)
    ensures
        !layout.reworked(how).holds(how),
        !layout.holds(how) ==> layout.reworked(how) == layout,
        layout.reworked(how).reworked(how) == layout.reworked(how),
    decreases layout, 1nat,
{
    lemma_reworking_removes_all(layout, how);
    lemma_reworking_removes_all(layout.reworked(how), how);
}

proof fn lemma_reworking_removes_all(layout: LayoutView, how: Rework)
    ensures
        !layout.reworked(how).holds(how),
        !layout.holds(how) ==> layout.reworked(how) == layout,
    decreases layout, 0nat,
{
    match layout {
        LayoutView::Dictionary(_, values) => {
            lemma_reworking_removes_all(*values, how);
        },
        LayoutView::RunEndEncoded(_, values) => {
            lemma_reworking_removes_all(values.layout, how);
        },
        LayoutView::Struct(parts) => {
            lemma_reworked_parts(parts, how);
        },
        LayoutView::List(item) => {
            lemma_reworking_removes_all(item.layout, how);
            assert(item.reworked(how).layout == item.layout.reworked(how));
        },
        LayoutView::LargeList(item) => {
            lemma_reworking_removes_all(item.layout, how);
            assert(item.reworked(how).layout == item.layout.reworked(how));
        },
        LayoutView::ListView(item) => {
            lemma_reworking_removes_all(item.layout, how);
            assert(item.reworked(how).layout == item.layout.reworked(how));
        },
        LayoutView::LargeListView(item) => {
            lemma_reworking_removes_all(item.layout, how);
            assert(item.reworked(how).layout == item.layout.reworked(how));
        },
        LayoutView::FixedSizeList(item, _) => {
            lemma_reworking_removes_all(item.layout, how);
            assert(item.reworked(how).layout == item.layout.reworked(how));
        },
        LayoutView::Entries(entries, _) => {
            lemma_reworking_removes_all(entries.layout, how);
            assert(entries.reworked(how).layout == entries.layout.reworked(how));
        },
        _ => {},
    }
}

proof fn lemma_reworked_parts(parts: Seq<PartView>, how: Rework)
    ensures
        reworked_parts(parts, how).len() == parts.len(),
        forall|i: int|
            0 <= i < parts.len() ==> !(#[trigger] reworked_parts(parts, how)[i]).layout.holds(how),
        (forall|i: int| 0 <= i < parts.len() ==> !(#[trigger] parts[i]).layout.holds(how))
            ==> reworked_parts(parts, how) == parts,
    decreases parts, 0nat,
{
    if parts.len() > 0 {
        let front = parts.drop_last();
        lemma_reworked_parts(front, how);
        lemma_reworking_removes_all(parts.last().layout, how);
        assert(parts.last().reworked(how).layout == parts.last().layout.reworked(how));
        let done = reworked_parts(front, how);
        assert forall|i: int| 0 <= i < parts.len() implies !(#[trigger] reworked_parts(
            parts,
            how,
        )[i]).layout.holds(how) by {
            if i < front.len() {
                assert(reworked_parts(parts, how)[i] == done[i]);
            }
        }
        if forall|i: int| 0 <= i < parts.len() ==> !(#[trigger] parts[i]).layout.holds(how) {
            assert forall|i: int| 0 <= i < front.len() implies !(
            #[trigger] front[i]).layout.holds(how) by {
                assert(front[i] == parts[i]);
            }
            assert(!parts[parts.len() - 1].layout.holds(how));
            assert(reworked_parts(parts, how) =~= parts);
        }
    } else {
        assert(reworked_parts(parts, how) =~= parts);
    }
}

/// How the values of an array are written as JSON.
#[derive(Clone, Copy, Debug, PartialEq, Eq, Structural)]
pub enum Writing {
    /// JSON text, as the JSON it holds.
    Raw,
    /// A UUID's bytes, as its hyphenated text.
    Uuid,
    /// Floats: finite ones as the shortest text that reads back as them, others by name.
    Float,
    /// Temporal values, as their text.
    Temporal,
    /// Lists, item by item, with the items' own writing.
    Items,
    /// As arrow-json writes them.
    Plain,
}

/// What an array's layout is to JSON.
#[derive(Clone, Copy, Debug, PartialEq, Eq, Structural)]
pub enum Stored {
    Text,
    /// Sixteen bytes.
    Bytes16,
    Float,
    Temporal,
    List,
    Other,
}

/// The extension types that JSON has forms of its own for.
#[derive(Clone, Copy, Debug, PartialEq, Eq, Structural)]
pub enum Extension {
    /// `arrow.json`
    Json,
    /// `arrow.uuid`
    Uuid,
    /// Any other, or none.
    Other,
}

/// Which extension type `name` names.
pub fn extension(name: Option<&String>) -> (extension: Extension)
    ensures
        extension == match name {
            Some(name) => if name@ == "arrow.json"@ {
                Extension::Json
            } else if name@ == "arrow.uuid"@ {
                Extension::Uuid
            } else {
                Extension::Other
            },
            None => Extension::Other,
        },
{
    match name {
        None => Extension::Other,
        Some(name) => {
            if *name == "arrow.json".to_string() {
                Extension::Json
            } else if *name == "arrow.uuid".to_string() {
                Extension::Uuid
            } else {
                Extension::Other
            }
        },
    }
}

/// How an array's values are written: its extension type's form where it is stored as that asks,
/// else the form of how it is stored.
pub open spec fn writing_of(extension: Extension, stored: Stored) -> Writing {
    match (extension, stored) {
        (Extension::Json, Stored::Text) => Writing::Raw,
        (Extension::Uuid, Stored::Bytes16) => Writing::Uuid,
        (_, Stored::Float) => Writing::Float,
        (_, Stored::Temporal) => Writing::Temporal,
        (_, Stored::List) => Writing::Items,
        _ => Writing::Plain,
    }
}

/// How an array's values are written.
///
/// JSON has no non-finite numbers, which arrow-json writes as `null`; it renders temporal values
/// it cannot hold as nothing, and encodes a list's items with the list's field, losing the items'
/// extension types: those three have writings of their own.
pub fn writing(extension: Extension, stored: Stored) -> (writing: Writing)
    ensures
        writing == writing_of(extension, stored),
{
    match (extension, stored) {
        (Extension::Json, Stored::Text) => Writing::Raw,
        (Extension::Uuid, Stored::Bytes16) => Writing::Uuid,
        (_, Stored::Float) => Writing::Float,
        (_, Stored::Temporal) => Writing::Temporal,
        (_, Stored::List) => Writing::Items,
        _ => Writing::Plain,
    }
}

/// `text` as a JSON string, where it holds nothing that wants an escape.
pub open spec fn quoted(text: Seq<u8>) -> Seq<u8> {
    seq![34u8] + text + seq![34u8]
}

/// Appends `text`, which holds nothing that wants an escape, to `out` as a JSON string.
pub fn push_quoted(out: &mut Vec<u8>, text: &Vec<u8>)
    ensures
        final(out)@ == old(out)@ + quoted(text@),
{
    let ghost before = out@;
    out.push(34);
    push_bytes(out, text);
    out.push(34);
    assert(out@ =~= before + quoted(text@));
}

/// Appends `bytes` to `out`.
fn push_bytes(out: &mut Vec<u8>, bytes: &Vec<u8>)
    ensures
        final(out)@ == old(out)@ + bytes@,
{
    let ghost before = out@;
    let mut at: usize = 0;
    assert(out@ =~= before + bytes@.take(0));
    while at < bytes.len()
        invariant
            at <= bytes@.len(),
            out@ == before + bytes@.take(at as int),
        decreases bytes@.len() - at,
    {
        out.push(bytes[at]);
        at = at + 1;
        assert(out@ =~= before + bytes@.take(at as int));
    }
    assert(bytes@.take(at as int) =~= bytes@);
}

/// The items of a list, as a list's JSON holds them: parted by commas, nulls by name.
pub open spec fn joined_items(items: Seq<Option<Vec<u8>>>) -> Seq<u8>
    decreases items.len(),
{
    if items.len() == 0 {
        Seq::empty()
    } else {
        joined_items(items.drop_last()) + (if items.len() > 1 {
            seq![44u8]
        } else {
            Seq::empty()
        }) + match items.last() {
            Some(item) => item@,
            None => seq![110u8, 117u8, 108u8, 108u8],
        }
    }
}

/// The JSON of a list whose items have the JSON `items`, null ones none.
pub fn encode_items(items: &Vec<Option<Vec<u8>>>) -> (json: Vec<u8>)
    ensures
        json@ == seq![91u8] + joined_items(items@) + seq![93u8],
{
    let mut json: Vec<u8> = Vec::new();
    json.push(91);
    let mut at: usize = 0;
    assert(items@.take(0) =~= Seq::<Option<Vec<u8>>>::empty());
    assert(json@ =~= seq![91u8] + joined_items(items@.take(0)));
    while at < items.len()
        invariant
            at <= items@.len(),
            json@ == seq![91u8] + joined_items(items@.take(at as int)),
        decreases items@.len() - at,
    {
        proof {
            assert(items@.take(at + 1).drop_last() =~= items@.take(at as int));
            assert(items@.take(at + 1).last() == items@[at as int]);
        }
        if at > 0 {
            json.push(44);
        }
        match &items[at] {
            Some(item) => push_bytes(&mut json, item),
            None => {
                json.push(110);
                json.push(117);
                json.push(108);
                json.push(108);
            },
        }
        at = at + 1;
        assert(json@ =~= seq![91u8] + joined_items(items@.take(at as int)));
    }
    json.push(93);
    assert(items@.take(at as int) =~= items@);
    json
}

/// What an array of the layout holds, behind all encodings.
pub open spec fn bare(layout: LayoutView) -> LayoutView
    decreases layout,
{
    match layout {
        LayoutView::Dictionary(_, values) => bare(*values),
        LayoutView::RunEndEncoded(_, values) => bare(values.layout),
        _ => layout,
    }
}

/// The layout as a rework meets it: decoding looks behind encodings, nothing else does.
pub open spec fn met(how: Rework, layout: LayoutView) -> LayoutView {
    if how == Rework::Decode {
        bare(layout)
    } else {
        layout
    }
}

/// The parts of a layout that a rework goes into: all there are, and for widening those of structs
/// and plain lists.
pub open spec fn entered(how: Rework, layout: LayoutView) -> Seq<PartView> {
    match layout {
        LayoutView::Struct(parts) => parts,
        LayoutView::List(item) => seq![*item],
        LayoutView::LargeList(item) => if how == Rework::Widen {
            Seq::empty()
        } else {
            seq![*item]
        },
        LayoutView::ListView(item) => if how == Rework::Widen {
            Seq::empty()
        } else {
            seq![*item]
        },
        LayoutView::LargeListView(item) => if how == Rework::Widen {
            Seq::empty()
        } else {
            seq![*item]
        },
        LayoutView::FixedSizeList(item, _) => if how == Rework::Widen {
            Seq::empty()
        } else {
            seq![*item]
        },
        LayoutView::Entries(entries, _) => if how == Rework::Widen {
            Seq::empty()
        } else {
            seq![*entries]
        },
        _ => Seq::empty(),
    }
}

/// The layout that the steps of `path` lead to, each into one of the parts entered.
pub open spec fn walked(how: Rework, layout: LayoutView, path: Seq<int>) -> Option<LayoutView>
    decreases path.len(),
{
    let here = met(how, layout);
    if path.len() == 0 {
        Some(here)
    } else if 0 <= path[0] < entered(how, here).len() {
        walked(how, entered(how, here)[path[0]].layout, path.skip(1))
    } else {
        None
    }
}

/// The part, whatever its layout.
pub open spec fn outlined(part: PartView) -> PartView {
    PartView { layout: LayoutView::Date64, ..part }
}

/// The layout, whatever the layouts of its parts: its form, and what its parts are called and
/// whether they may be null.
pub open spec fn outline(layout: LayoutView) -> LayoutView {
    match layout {
        LayoutView::Struct(parts) => LayoutView::Struct(
            Seq::new(parts.len(), |i: int| outlined(parts[i])),
        ),
        LayoutView::List(item) => LayoutView::List(Box::new(outlined(*item))),
        LayoutView::LargeList(item) => LayoutView::LargeList(Box::new(outlined(*item))),
        LayoutView::ListView(item) => LayoutView::ListView(Box::new(outlined(*item))),
        LayoutView::LargeListView(item) => LayoutView::LargeListView(Box::new(outlined(*item))),
        LayoutView::FixedSizeList(item, size) => LayoutView::FixedSizeList(
            Box::new(outlined(*item)),
            size,
        ),
        LayoutView::Entries(entries, sorted) => LayoutView::Entries(
            Box::new(outlined(*entries)),
            sorted,
        ),
        _ => layout,
    }
}

/// The form that a rework gives to a layout it meets: dates become wide, maps and views of lists
/// plain lists, and all else stays.
pub open spec fn given_form(how: Rework, layout: LayoutView) -> LayoutView {
    match (how, layout) {
        (Rework::Widen, LayoutView::Date32) => LayoutView::Date64,
        (Rework::Unmap, LayoutView::Entries(entries, _)) => LayoutView::List(entries),
        (Rework::Unmap, LayoutView::ListView(item)) => LayoutView::List(item),
        (Rework::Unmap, LayoutView::LargeListView(item)) => LayoutView::LargeList(item),
        _ => layout,
    }
}

proof fn lemma_bare(layout: LayoutView)
    ensures
        layout.reworked(Rework::Decode) == bare(layout).reworked(Rework::Decode),
        !(bare(layout) is Dictionary),
        !(bare(layout) is RunEndEncoded),
    decreases layout,
{
    match layout {
        LayoutView::Dictionary(_, values) => {
            lemma_bare(*values);
        },
        LayoutView::RunEndEncoded(_, values) => {
            lemma_bare(values.layout);
        },
        _ => {},
    }
}

proof fn lemma_each_part_reworked(parts: Seq<PartView>, how: Rework)
    ensures
        reworked_parts(parts, how).len() == parts.len(),
        forall|i: int|
            0 <= i < parts.len() ==> #[trigger] reworked_parts(parts, how)[i] == (PartView {
                layout: parts[i].layout.reworked(how),
                ..parts[i]
            }),
    decreases parts.len(),
{
    if parts.len() > 0 {
        let front = parts.drop_last();
        lemma_each_part_reworked(front, how);
        lemma_part_reworked(parts.last(), how);
        assert forall|i: int| 0 <= i < parts.len() implies #[trigger] reworked_parts(parts, how)[i]
            == (PartView { layout: parts[i].layout.reworked(how), ..parts[i] }) by {
            if i < front.len() {
                assert(reworked_parts(parts, how)[i] == reworked_parts(front, how)[i]);
                assert(front[i] == parts[i]);
            }
        }
    }
}

proof fn lemma_part_reworked(part: PartView, how: Rework)
    ensures
        part.reworked(how) == (PartView { layout: part.layout.reworked(how), ..part }),
{
}

proof fn lemma_one_step(how: Rework, layout: LayoutView)
    ensures
        ({
            let a = met(how, layout);
            let b = met(how, layout.reworked(how));
            &&& outline(b) == given_form(how, outline(a))
            &&& entered(how, b).len() == entered(how, a).len()
            &&& entered(how, a).len() == 0 ==> b == given_form(how, a)
            &&& forall|i: int|
                0 <= i < entered(how, a).len() ==> (#[trigger] entered(how, b)[i]).layout == entered(
                    how,
                    a,
                )[i].layout.reworked(how)
        }),
{
    let a = met(how, layout);
    let b = met(how, layout.reworked(how));
    if how == Rework::Decode {
        lemma_bare(layout);
        lemma_bare(layout.reworked(how));
        law_reworking_removes_all(layout, how);
    }
    assert(b == a.reworked(how));
    match a {
        LayoutView::List(item) => lemma_part_reworked(*item, how),
        LayoutView::LargeList(item) => lemma_part_reworked(*item, how),
        LayoutView::ListView(item) => lemma_part_reworked(*item, how),
        LayoutView::LargeListView(item) => lemma_part_reworked(*item, how),
        LayoutView::FixedSizeList(item, _) => lemma_part_reworked(*item, how),
        LayoutView::Entries(entries, _) => lemma_part_reworked(*entries, how),
        _ => {},
    }
    if let LayoutView::Struct(parts) = a {
        lemma_each_part_reworked(parts, how);
        let done = reworked_parts(parts, how);
        assert(b == LayoutView::Struct(done));
        assert(Seq::new(done.len(), |i: int| outlined(done[i])) =~= Seq::new(
            parts.len(),
            |i: int| outlined(parts[i]),
        ));
        if parts.len() == 0 {
            assert(done =~= parts);
        }
    }
}

/// A rework keeps what it does not change: at every part it goes into, the form is the one it
/// gives, of what stood there behind the encodings it removes, with the same parts, called as they
/// were and null where they were. What it does not go into stays as it is.
pub proof fn law_reworked_layouts_keep_their_parts(how: Rework, layout: LayoutView, path: Seq<int>)
    ensures
        match (walked(how, layout, path), walked(how, layout.reworked(how), path)) {
            (Some(a), Some(b)) => {
                &&& outline(b) == given_form(how, outline(a))
                &&& entered(how, a).len() == 0 ==> b == given_form(how, a)
            },
            (None, None) => true,
            _ => false,
        },
    decreases path.len(),
{
    lemma_one_step(how, layout);
    if path.len() > 0 {
        let a = met(how, layout);
        if 0 <= path[0] < entered(how, a).len() {
            law_reworked_layouts_keep_their_parts(
                how,
                entered(how, a)[path[0]].layout,
                path.skip(1),
            );
        }
    }
}

/// The JSON of two lists, one behind the other, is that of the one, a comma, and that of the other,
/// and the JSON of one item is its own, `null` where there is none.
pub proof fn law_items_are_parted_by_commas(a: Seq<Option<Vec<u8>>>, b: Seq<Option<Vec<u8>>>)
    ensures
        a.len() == 0 ==> joined_items(a) == Seq::<u8>::empty(),
        a.len() == 1 ==> joined_items(a) == match a[0] {
            Some(item) => item@,
            None => seq![110u8, 117u8, 108u8, 108u8],
        },
        a.len() > 0 && b.len() > 0 ==> joined_items(a + b) == joined_items(a) + seq![44u8]
            + joined_items(b),
    decreases b.len(),
{
    if a.len() == 1 {
        assert(joined_items(a.drop_last()) =~= Seq::<u8>::empty());
        assert(joined_items(a) =~= match a[0] {
            Some(item) => item@,
            None => seq![110u8, 117u8, 108u8, 108u8],
        });
    }
    if a.len() > 0 && b.len() > 0 {
        let front = b.drop_last();
        law_items_are_parted_by_commas(a, front);
        assert((a + b).drop_last() =~= a + front);
        assert((a + b).last() == b.last());
        if front.len() == 0 {
            assert(a + front =~= a);
            assert(joined_items(front) =~= Seq::<u8>::empty());
        }
        assert(joined_items(a + b) =~= joined_items(a) + seq![44u8] + joined_items(b));
    }
}

/// Only JSON that is stored as text is written as it is, and only a UUID that is stored in sixteen
/// bytes as one; floats, temporal values and lists have their own writing whatever they are called,
/// and nothing else does.
pub proof fn law_values_are_written_as_they_are_stored(extension: Extension, stored: Stored)
    ensures
        writing_of(extension, stored) == Writing::Raw <==> extension == Extension::Json && stored
            == Stored::Text,
        writing_of(extension, stored) == Writing::Uuid <==> extension == Extension::Uuid && stored
            == Stored::Bytes16,
        writing_of(extension, stored) == Writing::Float <==> stored == Stored::Float,
        writing_of(extension, stored) == Writing::Temporal <==> stored == Stored::Temporal,
        writing_of(extension, stored) == Writing::Items <==> stored == Stored::List,
{
}

} // verus!
