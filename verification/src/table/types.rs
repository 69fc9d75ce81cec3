//! Logical types, and the fields that have them.

use crate::table::temporal::TimeUnit;
use crate::text::text_view;
use vstd::prelude::*;
use vstd::string::*;

verus! {

/// A type of values, however they are stored.
#[derive(Debug)]
pub enum LogicalType {
    Null,
    Bool,
    Int8,
    Int16,
    Int32,
    Int64,
    Float32,
    Float64,
    /// Decimals of a precision and a scale.
    Decimal(u8, u8),
    Utf8,
    Binary,
    Date,
    Time(TimeUnit),
    /// Wall-clock times, or instants shown in a zone.
    Timestamp(TimeUnit, Option<String>),
    Duration(TimeUnit),
    Uuid,
    /// JSON text.
    Json,
    Struct(Vec<Field>),
    List(Box<Field>),
}

/// A named, typed column.
#[derive(Debug)]
pub struct Field {
    pub name: String,
    pub logical: LogicalType,
    pub nullable: bool,
}

/// What kind of type a type is, whatever its parameters.
#[derive(Clone, Copy, Debug, PartialEq, Eq, PartialOrd, Ord, Hash, Structural)]
pub enum TypeKind {
    Null,
    Bool,
    Int8,
    Int16,
    Int32,
    Int64,
    Float32,
    Float64,
    Decimal,
    Utf8,
    Binary,
    Date,
    Time,
    Timestamp,
    Duration,
    Uuid,
    Json,
    Struct,
    List,
}

/// A logical type as a mathematical value.
pub ghost enum TypeView {
    Null,
    Bool,
    Int8,
    Int16,
    Int32,
    Int64,
    Float32,
    Float64,
    Decimal(u8, u8),
    Utf8,
    Binary,
    Date,
    Time(TimeUnit),
    Timestamp(TimeUnit, Option<Seq<char>>),
    Duration(TimeUnit),
    Uuid,
    Json,
    Struct(Seq<FieldView>),
    List(Box<FieldView>),
}

/// A field as a mathematical value.
pub ghost struct FieldView {
    pub name: Seq<char>,
    pub logical: TypeView,
    pub nullable: bool,
}

impl LogicalType {
    /// The type as a mathematical value.
    pub open spec fn view(&self) -> TypeView
        decreases self,
    {
        match *self {
            LogicalType::Null => TypeView::Null,
            LogicalType::Bool => TypeView::Bool,
            LogicalType::Int8 => TypeView::Int8,
            LogicalType::Int16 => TypeView::Int16,
            LogicalType::Int32 => TypeView::Int32,
            LogicalType::Int64 => TypeView::Int64,
            LogicalType::Float32 => TypeView::Float32,
            LogicalType::Float64 => TypeView::Float64,
            LogicalType::Decimal(precision, scale) => TypeView::Decimal(precision, scale),
            LogicalType::Utf8 => TypeView::Utf8,
            LogicalType::Binary => TypeView::Binary,
            LogicalType::Date => TypeView::Date,
            LogicalType::Time(unit) => TypeView::Time(unit),
            LogicalType::Timestamp(unit, zone) => TypeView::Timestamp(unit, text_view(zone)),
            LogicalType::Duration(unit) => TypeView::Duration(unit),
            LogicalType::Uuid => TypeView::Uuid,
            LogicalType::Json => TypeView::Json,
            LogicalType::Struct(fields) => TypeView::Struct(field_views(fields@)),
            LogicalType::List(item) => TypeView::List(Box::new(item.view())),
        }
    }
}

impl Field {
    /// The field as a mathematical value.
    pub open spec fn view(&self) -> FieldView
        decreases self,
    {
        FieldView { name: self.name@, logical: self.logical.view(), nullable: self.nullable }
    }
}

/// Fields as mathematical values.
pub open spec fn field_views(fields: Seq<Field>) -> Seq<FieldView>
    decreases fields,
{
    if fields.len() == 0 {
        Seq::empty()
    } else {
        field_views(fields.drop_last()).push(fields.last().view())
    }
}

/// Each field of a list is its own view.
pub proof fn lemma_field_views(fields: Seq<Field>)
    ensures
        field_views(fields).len() == fields.len(),
        forall|i: int| 0 <= i < fields.len() ==> #[trigger] field_views(fields)[i] == fields[i]@,
    decreases fields.len(),
{
    if fields.len() > 0 {
        lemma_field_views(fields.drop_last());
        assert forall|i: int| 0 <= i < fields.len() implies #[trigger] field_views(fields)[i]
            == fields[i]@ by {
            if i < fields.len() - 1 {
                assert(field_views(fields)[i] == field_views(fields.drop_last())[i]);
                assert(fields.drop_last()[i] == fields[i]);
            }
        }
    }
}

/// Whether two optional texts are equal.
pub fn same_text(a: &Option<String>, b: &Option<String>) -> (same: bool)
    ensures
        same == (text_view(*a) == text_view(*b)),
{
    match (a, b) {
        (None, None) => true,
        (Some(a), Some(b)) => *a == *b,
        _ => false,
    }
}

impl LogicalType {
    /// Whether two types are the same.
    pub fn same(&self, other: &LogicalType) -> (same: bool)
        ensures
            same == (self@ == other@),
        decreases self,
    {
        match (self, other) {
            (LogicalType::Null, LogicalType::Null) => true,
            (LogicalType::Bool, LogicalType::Bool) => true,
            (LogicalType::Int8, LogicalType::Int8) => true,
            (LogicalType::Int16, LogicalType::Int16) => true,
            (LogicalType::Int32, LogicalType::Int32) => true,
            (LogicalType::Int64, LogicalType::Int64) => true,
            (LogicalType::Float32, LogicalType::Float32) => true,
            (LogicalType::Float64, LogicalType::Float64) => true,
            (LogicalType::Decimal(p, s), LogicalType::Decimal(q, t)) => *p == *q && *s == *t,
            (LogicalType::Utf8, LogicalType::Utf8) => true,
            (LogicalType::Binary, LogicalType::Binary) => true,
            (LogicalType::Date, LogicalType::Date) => true,
            (LogicalType::Time(a), LogicalType::Time(b)) => *a == *b,
            (LogicalType::Timestamp(a, y), LogicalType::Timestamp(b, z)) => *a == *b && same_text(
                y,
                z,
            ),
            (LogicalType::Duration(a), LogicalType::Duration(b)) => *a == *b,
            (LogicalType::Uuid, LogicalType::Uuid) => true,
            (LogicalType::Json, LogicalType::Json) => true,
            (LogicalType::Struct(a), LogicalType::Struct(b)) => same_fields(a, b),
            (LogicalType::List(a), LogicalType::List(b)) => a.same(b),
            _ => false,
        }
    }
}

impl Field {
    /// Whether two fields are the same.
    pub fn same(&self, other: &Field) -> (same: bool)
        ensures
            same == (self@ == other@),
        decreases self,
    {
        self.name == other.name && self.nullable == other.nullable && self.logical.same(
            &other.logical,
        )
    }
}

/// Whether two lists of fields are the same.
pub fn same_fields(a: &Vec<Field>, b: &Vec<Field>) -> (same: bool)
    ensures
        same == (field_views(a@) == field_views(b@)),
    decreases a,
{
    proof {
        lemma_field_views(a@);
        lemma_field_views(b@);
    }
    if a.len() != b.len() {
        return false;
    }
    let mut at: usize = 0;
    while at < a.len()
        invariant
            a@.len() == b@.len(),
            at <= a@.len(),
            field_views(a@).len() == a@.len(),
            field_views(b@).len() == b@.len(),
            forall|i: int| 0 <= i < a@.len() ==> #[trigger] field_views(a@)[i] == a@[i]@,
            forall|i: int| 0 <= i < b@.len() ==> #[trigger] field_views(b@)[i] == b@[i]@,
            forall|i: int| 0 <= i < at ==> #[trigger] field_views(a@)[i] == field_views(b@)[i],
        decreases a@.len() - at,
    {
        assert(decreases_to!(a => a@[at as int]));
        if !a[at].same(&b[at]) {
            assert(field_views(a@)[at as int] != field_views(b@)[at as int]);
            return false;
        }
        at = at + 1;
    }
    assert(field_views(a@) =~= field_views(b@));
    true
}

impl Clone for LogicalType {
    fn clone(&self) -> (copy: LogicalType)
        ensures
            copy@ == self@,
        decreases self,
    {
        match self {
            LogicalType::Null => LogicalType::Null,
            LogicalType::Bool => LogicalType::Bool,
            LogicalType::Int8 => LogicalType::Int8,
            LogicalType::Int16 => LogicalType::Int16,
            LogicalType::Int32 => LogicalType::Int32,
            LogicalType::Int64 => LogicalType::Int64,
            LogicalType::Float32 => LogicalType::Float32,
            LogicalType::Float64 => LogicalType::Float64,
            LogicalType::Decimal(precision, scale) => LogicalType::Decimal(*precision, *scale),
            LogicalType::Utf8 => LogicalType::Utf8,
            LogicalType::Binary => LogicalType::Binary,
            LogicalType::Date => LogicalType::Date,
            LogicalType::Time(unit) => LogicalType::Time(*unit),
            LogicalType::Timestamp(unit, None) => LogicalType::Timestamp(*unit, None),
            LogicalType::Timestamp(unit, Some(zone)) => LogicalType::Timestamp(
                *unit,
                Some(zone.clone()),
            ),
            LogicalType::Duration(unit) => LogicalType::Duration(*unit),
            LogicalType::Uuid => LogicalType::Uuid,
            LogicalType::Json => LogicalType::Json,
            LogicalType::Struct(fields) => LogicalType::Struct(clone_fields(fields)),
            LogicalType::List(item) => LogicalType::List(Box::new((**item).clone())),
        }
    }
}

impl Clone for Field {
    fn clone(&self) -> (copy: Field)
        ensures
            copy@ == self@,
        decreases self,
    {
        Field { name: self.name.clone(), logical: self.logical.clone(), nullable: self.nullable }
    }
}

/// A copy of a list of fields.
pub fn clone_fields(fields: &Vec<Field>) -> (copy: Vec<Field>)
    ensures
        field_views(copy@) == field_views(fields@),
    decreases fields,
{
    let mut copy: Vec<Field> = Vec::new();
    let mut at: usize = 0;
    while at < fields.len()
        invariant
            at <= fields@.len(),
            copy@.len() == at,
            forall|i: int| 0 <= i < at ==> (#[trigger] copy@[i])@ == fields@[i]@,
        decreases fields@.len() - at,
    {
        assert(decreases_to!(fields => fields@[at as int]));
        let field: Field = fields[at].clone();
        copy.push(field);
        at = at + 1;
    }
    proof {
        lemma_field_views(copy@);
        lemma_field_views(fields@);
        assert(field_views(copy@) =~= field_views(fields@));
    }
    copy
}

impl TypeView {
    /// The kind of the type.
    pub open spec fn kind(self) -> TypeKind {
        match self {
            TypeView::Null => TypeKind::Null,
            TypeView::Bool => TypeKind::Bool,
            TypeView::Int8 => TypeKind::Int8,
            TypeView::Int16 => TypeKind::Int16,
            TypeView::Int32 => TypeKind::Int32,
            TypeView::Int64 => TypeKind::Int64,
            TypeView::Float32 => TypeKind::Float32,
            TypeView::Float64 => TypeKind::Float64,
            TypeView::Decimal(..) => TypeKind::Decimal,
            TypeView::Utf8 => TypeKind::Utf8,
            TypeView::Binary => TypeKind::Binary,
            TypeView::Date => TypeKind::Date,
            TypeView::Time(_) => TypeKind::Time,
            TypeView::Timestamp(..) => TypeKind::Timestamp,
            TypeView::Duration(_) => TypeKind::Duration,
            TypeView::Uuid => TypeKind::Uuid,
            TypeView::Json => TypeKind::Json,
            TypeView::Struct(_) => TypeKind::Struct,
            TypeView::List(_) => TypeKind::List,
        }
    }
}

impl LogicalType {
    /// The kind of the type.
    pub fn kind(&self) -> (kind: TypeKind)
        ensures
            kind == self@.kind(),
    {
        match self {
            LogicalType::Null => TypeKind::Null,
            LogicalType::Bool => TypeKind::Bool,
            LogicalType::Int8 => TypeKind::Int8,
            LogicalType::Int16 => TypeKind::Int16,
            LogicalType::Int32 => TypeKind::Int32,
            LogicalType::Int64 => TypeKind::Int64,
            LogicalType::Float32 => TypeKind::Float32,
            LogicalType::Float64 => TypeKind::Float64,
            LogicalType::Decimal(..) => TypeKind::Decimal,
            LogicalType::Utf8 => TypeKind::Utf8,
            LogicalType::Binary => TypeKind::Binary,
            LogicalType::Date => TypeKind::Date,
            LogicalType::Time(_) => TypeKind::Time,
            LogicalType::Timestamp(..) => TypeKind::Timestamp,
            LogicalType::Duration(_) => TypeKind::Duration,
            LogicalType::Uuid => TypeKind::Uuid,
            LogicalType::Json => TypeKind::Json,
            LogicalType::Struct(_) => TypeKind::Struct,
            LogicalType::List(_) => TypeKind::List,
        }
    }
}

/// A type's kind says what it is, whatever its parameters: two types have one kind exactly where
/// they are of one sort.
pub proof fn law_every_sort_of_type_has_its_kind(logical: TypeView)
    ensures
        logical is Null <==> logical.kind() == TypeKind::Null,
        logical is Bool <==> logical.kind() == TypeKind::Bool,
        logical is Int8 <==> logical.kind() == TypeKind::Int8,
        logical is Int16 <==> logical.kind() == TypeKind::Int16,
        logical is Int32 <==> logical.kind() == TypeKind::Int32,
        logical is Int64 <==> logical.kind() == TypeKind::Int64,
        logical is Float32 <==> logical.kind() == TypeKind::Float32,
        logical is Float64 <==> logical.kind() == TypeKind::Float64,
        logical is Decimal <==> logical.kind() == TypeKind::Decimal,
        logical is Utf8 <==> logical.kind() == TypeKind::Utf8,
        logical is Binary <==> logical.kind() == TypeKind::Binary,
        logical is Date <==> logical.kind() == TypeKind::Date,
        logical is Time <==> logical.kind() == TypeKind::Time,
        logical is Timestamp <==> logical.kind() == TypeKind::Timestamp,
        logical is Duration <==> logical.kind() == TypeKind::Duration,
        logical is Uuid <==> logical.kind() == TypeKind::Uuid,
        logical is Json <==> logical.kind() == TypeKind::Json,
        logical is Struct <==> logical.kind() == TypeKind::Struct,
        logical is List <==> logical.kind() == TypeKind::List,
{
}

} // verus!
