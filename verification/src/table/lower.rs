//! Lowering: how a destination stores each logical type, and the physical columns of a table.

use crate::table::temporal::TimeUnit;
use crate::table::types::{
    field_views, lemma_field_views, Field, FieldView, LogicalType, TypeKind, TypeView,
};
use vstd::prelude::*;
use vstd::string::*;

verus! {

/// What a destination stores, and which changes to its tables it makes.
#[derive(Debug)]
pub struct Capabilities {
    /// The kinds it stores natively.
    pub types: Vec<TypeKind>,
    /// Whether it stores structs.
    pub structs: bool,
    /// Whether it stores lists.
    pub lists: bool,
    /// Whether it stores nested values as JSON.
    pub json: bool,
    /// Whether it adds columns to tables.
    pub add_column: bool,
    /// The changes of a column's kind it makes in place.
    pub widenings: Vec<(TypeKind, TypeKind)>,
}

impl Capabilities {
    /// Whether the destination stores `kind` natively.
    pub open spec fn stores(&self, kind: TypeKind) -> bool {
        self.types@.contains(kind)
    }

    /// Whether the destination changes a column of `from` into one of `to`.
    pub open spec fn changes(&self, from: TypeKind, to: TypeKind) -> bool {
        self.widenings@.contains((from, to))
    }

    /// Whether the destination stores `kind` natively.
    pub fn holds(&self, kind: TypeKind) -> (holds: bool)
        ensures
            holds == self.stores(kind),
    {
        let mut at: usize = 0;
        while at < self.types.len()
            invariant
                at <= self.types@.len(),
                forall|i: int| 0 <= i < at ==> self.types@[i] != kind,
            decreases self.types@.len() - at,
        {
            if self.types[at] == kind {
                return true;
            }
            at = at + 1;
        }
        false
    }

    /// Whether the destination changes a column of `from` into one of `to`.
    pub fn widens(&self, from: TypeKind, to: TypeKind) -> (widens: bool)
        ensures
            widens == self.changes(from, to),
    {
        let mut at: usize = 0;
        while at < self.widenings.len()
            invariant
                at <= self.widenings@.len(),
                forall|i: int| 0 <= i < at ==> self.widenings@[i] != (from, to),
            decreases self.widenings@.len() - at,
        {
            let (one, other): (TypeKind, TypeKind) = self.widenings[at];
            if one == from && other == to {
                assert(self.widenings@[at as int] == (from, to));
                return true;
            }
            at = at + 1;
        }
        false
    }
}

/// How a column stores nested values.
#[derive(Clone, Copy, Debug, PartialEq, Eq, Structural)]
pub enum Nested {
    /// As the destination stores structs and lists.
    Native,
    /// As JSON.
    Json,
}

/// `Json`, or text where the destination has no JSON type.
pub open spec fn json_type(capabilities: &Capabilities) -> TypeView {
    if capabilities.stores(TypeKind::Json) || capabilities.json {
        TypeView::Json
    } else {
        TypeView::Utf8
    }
}

/// `Json`, or text where the destination has no JSON type.
pub fn json(capabilities: &Capabilities) -> (logical: LogicalType)
    ensures
        logical@ == json_type(capabilities),
{
    if capabilities.holds(TypeKind::Json) || capabilities.json {
        LogicalType::Json
    } else {
        LogicalType::Utf8
    }
}

/// Whether the destination stores `logical` and everything inside it natively.
pub open spec fn is_native(logical: TypeView, capabilities: &Capabilities) -> bool
    decreases logical,
{
    match logical {
        TypeView::Null => true,
        TypeView::Struct(fields) => capabilities.structs && forall|i: int|
            0 <= i < fields.len() ==> is_native((#[trigger] fields[i]).logical, capabilities),
        TypeView::List(item) => capabilities.lists && is_native(item.logical, capabilities),
        other => capabilities.stores(other.kind()),
    }
}

/// Whether the destination stores `logical` and everything inside it natively.
pub fn native(logical: &LogicalType, capabilities: &Capabilities) -> (native: bool)
    ensures
        native == is_native(logical@, capabilities),
    decreases logical,
{
    match logical {
        LogicalType::Null => true,
        LogicalType::Struct(fields) => capabilities.structs && native_fields(fields, capabilities),
        LogicalType::List(item) => capabilities.lists && native(&item.logical, capabilities),
        other => capabilities.holds(other.kind()),
    }
}

fn native_fields(fields: &Vec<Field>, capabilities: &Capabilities) -> (all: bool)
    ensures
        all == forall|i: int|
            0 <= i < field_views(fields@).len() ==> is_native(
                (#[trigger] field_views(fields@)[i]).logical,
                capabilities,
            ),
    decreases fields,
{
    proof {
        lemma_field_views(fields@);
    }
    let mut at: usize = 0;
    while at < fields.len()
        invariant
            at <= fields@.len(),
            field_views(fields@).len() == fields@.len(),
            forall|i: int|
                0 <= i < fields@.len() ==> #[trigger] field_views(fields@)[i] == fields@[i]@,
            forall|i: int|
                0 <= i < at ==> is_native(
                    (#[trigger] field_views(fields@)[i]).logical,
                    capabilities,
                ),
        decreases fields@.len() - at,
    {
        assert(decreases_to!(fields => fields@[at as int]));
        assert(field_views(fields@)[at as int] == fields@[at as int]@);
        if !native(&fields[at].logical, capabilities) {
            return false;
        }
        at = at + 1;
    }
    true
}

/// How the destination stores a column of `logical` under `nested`.
///
/// A type the destination stores natively stays. Nested values stay native only when every value
/// inside them is native too and the policy asks for it; otherwise they, like `Json`, become
/// `Json`, or text where the destination has no JSON type. Any other type becomes its text.
pub open spec fn lowered(logical: TypeView, nested: Nested, capabilities: &Capabilities) -> TypeView {
    match logical {
        TypeView::Struct(_) | TypeView::List(_) => if nested == Nested::Native && is_native(
            logical,
            capabilities,
        ) {
            logical
        } else {
            json_type(capabilities)
        },
        TypeView::Json => json_type(capabilities),
        other => if capabilities.stores(other.kind()) {
            other
        } else {
            TypeView::Utf8
        },
    }
}

/// How the destination stores a column of `logical` under `nested`.
pub fn lower(logical: &LogicalType, nested: Nested, capabilities: &Capabilities) -> (stored:
    LogicalType)
    ensures
        stored@ == lowered(logical@, nested, capabilities),
{
    let is_nested: bool = match logical {
        LogicalType::Struct(_) => true,
        LogicalType::List(_) => true,
        _ => false,
    };
    if is_nested {
        if nested == Nested::Native && native(logical, capabilities) {
            logical.clone()
        } else {
            json(capabilities)
        }
    } else {
        match logical {
            LogicalType::Json => json(capabilities),
            other => if capabilities.holds(other.kind()) {
                other.clone()
            } else {
                LogicalType::Utf8
            },
        }
    }
}

/// What a destination stores is stored as it is: lowering twice is lowering once.
pub proof fn law_stored_types_are_stored_as_they_are(
    logical: TypeView,
    nested: Nested,
    capabilities: &Capabilities,
)
    ensures
        lowered(lowered(logical, nested, capabilities), nested, capabilities) == lowered(
            logical,
            nested,
            capabilities,
        ),
{
}

/// Which lineage columns a table has.
#[derive(Clone, Copy, Debug, PartialEq, Eq, Structural)]
pub enum LineageColumns {
    /// None: the stream does not normalize.
    Absent,
    /// The row's id: a normalized stream's own table.
    Root,
    /// The row's id and its parent's, root's and position: a child table.
    Child,
}

/// A metadata column of a table.
#[derive(Clone, Copy, Debug, PartialEq, Eq, Structural)]
pub enum MetaColumn {
    LoadId,
    LoadedAt,
    /// Each row's sequence, in merge tables.
    Sequence,
    /// Each row's id, in the tables of normalized streams.
    Id,
    ParentId,
    RootId,
    /// Each row's position in its parent's array.
    Idx,
}

/// The metadata columns of a table, in the order they are named and stored in.
pub open spec fn meta_columns(merge: bool, lineage: LineageColumns) -> Seq<MetaColumn> {
    seq![MetaColumn::LoadId, MetaColumn::LoadedAt] + (if merge {
        seq![MetaColumn::Sequence]
    } else {
        Seq::empty()
    }) + (if lineage != LineageColumns::Absent {
        seq![MetaColumn::Id]
    } else {
        Seq::empty()
    }) + (if lineage == LineageColumns::Child {
        seq![MetaColumn::ParentId, MetaColumn::RootId, MetaColumn::Idx]
    } else {
        Seq::empty()
    })
}

/// The metadata columns of a table, in the order they are named in, each around the ones before.
pub fn wanted_columns(merge: bool, lineage: LineageColumns) -> (columns: Vec<MetaColumn>)
    ensures
        columns@ == meta_columns(merge, lineage),
{
    let mut columns: Vec<MetaColumn> = Vec::new();
    columns.push(MetaColumn::LoadId);
    columns.push(MetaColumn::LoadedAt);
    if merge {
        columns.push(MetaColumn::Sequence);
    }
    if lineage != LineageColumns::Absent {
        columns.push(MetaColumn::Id);
    }
    if lineage == LineageColumns::Child {
        columns.push(MetaColumn::ParentId);
        columns.push(MetaColumn::RootId);
        columns.push(MetaColumn::Idx);
    }
    assert(columns@ =~= meta_columns(merge, lineage));
    columns
}

/// The identifiers of a table's metadata columns under the destination's rules.
#[derive(Debug)]
pub struct MetaNames {
    pub load_id: String,
    pub loaded_at: String,
    /// The sequence column, for merge tables.
    pub seq: Option<String>,
    /// Each row's id, for the tables of normalized streams.
    pub id: Option<String>,
    /// The parent's id, the root's id and the position in the parent's array, for child tables.
    pub parent: Option<(String, String, String)>,
}

/// One text, or none.
pub open spec fn one_of(text: Option<String>) -> Seq<Seq<char>> {
    match text {
        Some(text) => seq![text@],
        None => Seq::empty(),
    }
}

/// The texts of names.
pub open spec fn name_views(names: Seq<&str>) -> Seq<Seq<char>> {
    Seq::new(names.len(), |i: int| names[i]@)
}

impl MetaNames {
    /// The identifiers of the lineage columns of a child table.
    pub open spec fn parents(&self) -> Seq<Seq<char>> {
        match self.parent {
            Some((parent, root, idx)) => seq![parent@, root@, idx@],
            None => Seq::empty(),
        }
    }

    /// Every metadata identifier, in the order the columns are stored in.
    pub open spec fn names(&self) -> Seq<Seq<char>> {
        seq![self.load_id@, self.loaded_at@] + one_of(self.seq) + one_of(self.id) + self.parents()
    }

    /// Whether the identifiers are of a table with these metadata columns.
    pub open spec fn are_of(&self, merge: bool, lineage: LineageColumns) -> bool {
        &&& self.seq is Some == merge
        &&& self.id is Some == (lineage != LineageColumns::Absent)
        &&& self.parent is Some == (lineage == LineageColumns::Child)
    }

    /// The metadata identifiers of a table: `names`, of its wanted columns in their order.
    pub fn assign(names: Vec<String>, merge: bool, lineage: LineageColumns) -> (meta: MetaNames)
        requires
            names@.len() == meta_columns(merge, lineage).len(),
        ensures
            meta.are_of(merge, lineage),
            meta.names() == Seq::new(names@.len(), |i: int| names@[i]@),
    {
        let mut next: usize = 2;
        let seq: Option<String> = if merge {
            next = next + 1;
            Some(names[next - 1].clone())
        } else {
            None
        };
        let id: Option<String> = if lineage != LineageColumns::Absent {
            next = next + 1;
            Some(names[next - 1].clone())
        } else {
            None
        };
        let parent: Option<(String, String, String)> = if lineage == LineageColumns::Child {
            Some((names[next].clone(), names[next + 1].clone(), names[next + 2].clone()))
        } else {
            None
        };
        let meta = MetaNames {
            load_id: names[0].clone(),
            loaded_at: names[1].clone(),
            seq,
            id,
            parent,
        };
        assert(meta.names() =~= Seq::new(names@.len(), |i: int| names@[i]@));
        meta
    }

    /// Every metadata identifier, which source columns may not take.
    pub fn all(&self) -> (names: Vec<&str>)
        ensures
            name_views(names@) == self.names(),
    {
        let mut names: Vec<&str> = Vec::new();
        names.push(self.load_id.as_str());
        names.push(self.loaded_at.as_str());
        if let Some(seq) = &self.seq {
            names.push(seq.as_str());
        }
        if let Some(id) = &self.id {
            names.push(id.as_str());
        }
        if let Some((parent, root, idx)) = &self.parent {
            names.push(parent.as_str());
            names.push(root.as_str());
            names.push(idx.as_str());
        }
        assert(name_views(names@) =~= self.names());
        names
    }
}

/// The type a metadata column holds, before it is lowered.
pub open spec fn meta_type(column: MetaColumn) -> TypeView {
    match column {
        MetaColumn::LoadId => TypeView::Uuid,
        MetaColumn::LoadedAt => TypeView::Timestamp(TimeUnit::Microsecond, Some("UTC"@)),
        MetaColumn::Idx => TypeView::Int64,
        _ => TypeView::Binary,
    }
}

/// The type a metadata column holds, before it is lowered.
pub fn type_of_meta(column: MetaColumn) -> (logical: LogicalType)
    ensures
        logical@ == meta_type(column),
{
    match column {
        MetaColumn::LoadId => LogicalType::Uuid,
        MetaColumn::LoadedAt => LogicalType::Timestamp(
            TimeUnit::Microsecond,
            Some("UTC".to_string()),
        ),
        MetaColumn::Idx => LogicalType::Int64,
        _ => LogicalType::Binary,
    }
}

/// A metadata column as a destination has it. Lineage columns are nullable: rows loaded before
/// their stream normalized have none.
pub open spec fn meta_field(
    column: MetaColumn,
    name: Seq<char>,
    capabilities: &Capabilities,
) -> FieldView {
    FieldView {
        name,
        logical: lowered(meta_type(column), Nested::Native, capabilities),
        nullable: column == MetaColumn::Id || column == MetaColumn::ParentId || column
            == MetaColumn::RootId || column == MetaColumn::Idx,
    }
}

impl MetaNames {
    /// The metadata columns the identifiers are of.
    pub open spec fn columns(&self) -> Seq<MetaColumn> {
        seq![MetaColumn::LoadId, MetaColumn::LoadedAt] + (if self.seq is Some {
            seq![MetaColumn::Sequence]
        } else {
            Seq::empty()
        }) + (if self.id is Some {
            seq![MetaColumn::Id]
        } else {
            Seq::empty()
        }) + (if self.parent is Some {
            seq![MetaColumn::ParentId, MetaColumn::RootId, MetaColumn::Idx]
        } else {
            Seq::empty()
        })
    }

    /// The metadata columns the identifiers are of.
    pub fn kinds(&self) -> (columns: Vec<MetaColumn>)
        ensures
            columns@ == self.columns(),
    {
        let mut columns: Vec<MetaColumn> = Vec::new();
        columns.push(MetaColumn::LoadId);
        columns.push(MetaColumn::LoadedAt);
        if self.seq.is_some() {
            columns.push(MetaColumn::Sequence);
        }
        if self.id.is_some() {
            columns.push(MetaColumn::Id);
        }
        if self.parent.is_some() {
            columns.push(MetaColumn::ParentId);
            columns.push(MetaColumn::RootId);
            columns.push(MetaColumn::Idx);
        }
        assert(columns@ =~= self.columns());
        columns
    }

    proof fn lemma_as_many_names_as_columns(&self)
        ensures
            self.names().len() == self.columns().len(),
    {
    }
}

/// A source column as a destination has it.
pub open spec fn stored_field(
    column: FieldView,
    nested: Nested,
    capabilities: &Capabilities,
) -> FieldView {
    FieldView { logical: lowered(column.logical, nested, capabilities), ..column }
}

/// The lesser of two lengths.
pub open spec fn shorter(a: nat, b: nat) -> nat {
    if a <= b {
        a
    } else {
        b
    }
}

/// The columns a table has in the destination: its source columns lowered, each under its own
/// nesting, then the metadata columns.
pub open spec fn physical(
    columns: Seq<FieldView>,
    nested: Seq<Nested>,
    meta: &MetaNames,
    capabilities: &Capabilities,
) -> Seq<FieldView> {
    Seq::new(
        shorter(columns.len(), nested.len()),
        |i: int| stored_field(columns[i], nested[i], capabilities),
    ) + Seq::new(
        meta.columns().len(),
        |i: int| meta_field(meta.columns()[i], meta.names()[i], capabilities),
    )
}

/// The columns a table has in the destination: `columns` lowered, then the metadata columns.
pub fn physical_fields(
    columns: &Vec<Field>,
    nested: &Vec<Nested>,
    meta: &MetaNames,
    capabilities: &Capabilities,
) -> (fields: Vec<Field>)
    ensures
        field_views(fields@) == physical(field_views(columns@), nested@, meta, capabilities),
{
    let ghost views = field_views(columns@);
    proof {
        lemma_field_views(columns@);
        meta.lemma_as_many_names_as_columns();
    }
    let mut fields: Vec<Field> = Vec::new();
    let mut at: usize = 0;
    while at < columns.len() && at < nested.len()
        invariant
            at <= columns@.len(),
            at <= nested@.len(),
            views.len() == columns@.len(),
            forall|i: int| 0 <= i < columns@.len() ==> #[trigger] views[i] == columns@[i]@,
            fields@.len() == at,
            forall|i: int|
                0 <= i < at ==> (#[trigger] fields@[i])@ == stored_field(
                    views[i],
                    nested@[i],
                    capabilities,
                ),
        decreases columns@.len() - at,
    {
        let column: &Field = &columns[at];
        let field = Field {
            name: column.name.clone(),
            logical: lower(&column.logical, nested[at], capabilities),
            nullable: column.nullable,
        };
        proof {
            assert(views[at as int] == columns@[at as int]@);
        }
        fields.push(field);
        at = at + 1;
    }
    let count: usize = at;
    let names: Vec<&str> = meta.all();
    let kinds: Vec<MetaColumn> = meta.kinds();
    proof {
        assert(name_views(names@).len() == names@.len());
    }
    let mut next: usize = 0;
    while next < kinds.len()
        invariant
            kinds@ == meta.columns(),
            name_views(names@) == meta.names(),
            names@.len() == kinds@.len(),
            next <= kinds@.len(),
            count == shorter(views.len(), nested@.len()),
            fields@.len() == count + next,
            forall|i: int|
                0 <= i < count ==> (#[trigger] fields@[i])@ == stored_field(
                    views[i],
                    nested@[i],
                    capabilities,
                ),
            forall|i: int|
                count <= i < count + next ==> (#[trigger] fields@[i])@ == meta_field(
                    meta.columns()[i - count],
                    meta.names()[i - count],
                    capabilities,
                ),
        decreases kinds@.len() - next,
    {
        let kind: MetaColumn = kinds[next];
        let logical: LogicalType = type_of_meta(kind);
        let nullable: bool = match kind {
            MetaColumn::Id => true,
            MetaColumn::ParentId => true,
            MetaColumn::RootId => true,
            MetaColumn::Idx => true,
            _ => false,
        };
        let field = Field {
            name: names[next].to_string(),
            logical: lower(&logical, Nested::Native, capabilities),
            nullable,
        };
        proof {
            assert(name_views(names@)[next as int] == names@[next as int]@);
        }
        fields.push(field);
        next = next + 1;
    }
    proof {
        lemma_field_views(fields@);
        assert(field_views(fields@) =~= physical(views, nested@, meta, capabilities));
    }
    fields
}

/// A column of a prepared batch.
#[derive(Debug)]
pub struct PreparedField {
    /// The column as the destination stores it.
    pub field: Field,
    /// The type the table's model gives it, where the destination stores it as another.
    pub named: Option<LogicalType>,
    /// Whether it holds one value per batch, as a dictionary of it.
    pub dictionary: bool,
}

/// Whether `prepared` is the column at `index` of batches of a table whose columns are `fields`,
/// those of the model, of the types `model`, first.
pub open spec fn is_prepared(
    prepared: PreparedField,
    index: int,
    fields: Seq<FieldView>,
    model: Seq<LogicalType>,
) -> bool {
    &&& prepared.field@ == fields[index]
    &&& prepared.named is Some == (index < model.len() && model[index]@ != fields[index].logical)
    &&& prepared.named matches Some(named) ==> named@ == model[index]@
    &&& prepared.dictionary == (index == model.len() || index == model.len() + 1)
}

/// The columns of prepared batches of a table whose columns are `fields`, those of the model, of
/// the types `model`, first: each stored as another type names its own, and the load id and load
/// start, which hold one value per batch, are dictionaries of it.
pub fn prepared_schema(fields: &Vec<Field>, model: &Vec<LogicalType>) -> (prepared: Vec<
    PreparedField,
>)
    ensures
        prepared@.len() == fields@.len(),
        forall|i: int|
            0 <= i < fields@.len() ==> is_prepared(
                #[trigger] prepared@[i],
                i,
                field_views(fields@),
                model@,
            ),
{
    let ghost views = field_views(fields@);
    proof {
        lemma_field_views(fields@);
    }
    let mut prepared: Vec<PreparedField> = Vec::new();
    let mut at: usize = 0;
    while at < fields.len()
        invariant
            at <= fields@.len(),
            views == field_views(fields@),
            views.len() == fields@.len(),
            forall|i: int| 0 <= i < fields@.len() ==> #[trigger] views[i] == fields@[i]@,
            prepared@.len() == at,
            forall|i: int|
                0 <= i < at ==> is_prepared(#[trigger] prepared@[i], i, views, model@),
        decreases fields@.len() - at,
    {
        proof {
            assert(views[at as int] == fields@[at as int]@);
        }
        let named: Option<LogicalType> = if at < model.len() && !model[at].same(
            &fields[at].logical,
        ) {
            Some(model[at].clone())
        } else {
            None
        };
        let dictionary: bool = at == model.len() || (at > 0 && at - 1 == model.len());
        prepared.push(PreparedField { field: fields[at].clone(), named, dictionary });
        at = at + 1;
    }
    prepared
}

/// The metadata columns a table wants are those its names are given to, one name each: the load's id
/// and start always, the rows' sequence where it merges, their id where its stream normalizes, and
/// their parent's, their root's and their position where it is a child table.
pub proof fn law_wanted_columns_are_the_named(
    meta: &MetaNames,
    merge: bool,
    lineage: LineageColumns,
)
    requires
        meta.are_of(merge, lineage),
    ensures
        meta.columns() == meta_columns(merge, lineage),
        meta.names().len() == meta.columns().len(),
        meta_columns(merge, lineage).contains(MetaColumn::Sequence) <==> merge,
        meta_columns(merge, lineage).contains(MetaColumn::Id) <==> lineage
            != LineageColumns::Absent,
        meta_columns(merge, lineage).contains(MetaColumn::ParentId) <==> lineage
            == LineageColumns::Child,
        meta_columns(merge, lineage).contains(MetaColumn::RootId) <==> lineage
            == LineageColumns::Child,
        meta_columns(merge, lineage).contains(MetaColumn::Idx) <==> lineage == LineageColumns::Child,
        meta_columns(merge, lineage)[0] == MetaColumn::LoadId,
        meta_columns(merge, lineage)[1] == MetaColumn::LoadedAt,
        meta_columns(merge, lineage).no_duplicates(),
{
    let all = meta_columns(merge, lineage);
    assert(meta.columns() =~= all);
    let merged = if merge {
        1int
    } else {
        0int
    };
    if merge {
        assert(all[2] == MetaColumn::Sequence);
    }
    if lineage != LineageColumns::Absent {
        assert(all[2 + merged] == MetaColumn::Id);
    }
    if lineage == LineageColumns::Child {
        assert(all[3 + merged] == MetaColumn::ParentId);
        assert(all[4 + merged] == MetaColumn::RootId);
        assert(all[5 + merged] == MetaColumn::Idx);
    }
}

} // verus!
