//! Schema resolution: how a batch's columns fit its table, and the changes the table needs first.

use crate::error::ErrorKind;
use crate::search::{first_where, lemma_first_is, lemma_first_is_none, lemma_first_where};
use crate::table::lower::{lower, lowered, Capabilities, Nested};
use crate::table::model::{
    name_in, ColumnKey, ColumnPath, KeyView, Model, ModelView, NameMap,
};
use crate::table::types::{
    field_views, lemma_field_views, Field, FieldView, LogicalType, TypeKind, TypeView,
};
use vstd::prelude::*;
use vstd::string::*;

verus! {

/// Where one incoming column's values go.
#[derive(Clone, Copy, Debug, PartialEq, Eq, Structural)]
pub enum Route {
    /// Into the model's column at this position.
    Column(usize),
    /// Nowhere, and every row holding a value in the column is dropped.
    DiscardRows,
    /// Nowhere: the rows load without the column's values.
    DiscardValues,
    /// Nowhere: the column holds only nulls and the table has no column for it.
    Skip,
}

/// What becomes of a change a batch would make to its table.
#[derive(Clone, Copy, Debug, PartialEq, Eq, Structural)]
pub enum SchemaPolicy {
    /// It is made.
    Evolve,
    /// It is refused.
    Freeze,
    /// The rows that need it are dropped.
    DiscardRow,
    /// The values that need it are dropped.
    DiscardValue,
}

/// What becomes of a widening the destination cannot make.
#[derive(Clone, Copy, Debug, PartialEq, Eq, Structural)]
pub enum OnUnsupported {
    /// The values go to a variant column.
    Variant,
    /// They are refused.
    Refuse,
}

/// A change to a table's model.
#[derive(Debug)]
pub enum Change {
    /// The column for `key`, appended to the model.
    Add { key: ColumnKey },
    /// The column at `column` widens from `from`.
    Widen { column: usize, from: LogicalType },
}

/// A change as a mathematical value.
pub ghost enum ChangeView {
    Add { key: KeyView },
    Widen { column: int, from: TypeView },
}

impl Change {
    /// The change as a mathematical value.
    pub open spec fn view(&self) -> ChangeView {
        match *self {
            Change::Add { key } => ChangeView::Add { key: key@ },
            Change::Widen { column, from } => ChangeView::Widen {
                column: column as int,
                from: from@,
            },
        }
    }
}

/// Changes as mathematical values.
pub open spec fn change_views(changes: Seq<Change>) -> Seq<ChangeView> {
    Seq::new(changes.len(), |i: int| changes[i]@)
}

/// The type a column is given, and what that type and the incoming one join to.
#[derive(Debug)]
pub struct Hint {
    pub logical: LogicalType,
    pub joined: LogicalType,
}

/// One incoming column, with what applies to it.
#[derive(Debug)]
pub struct Arriving {
    pub path: ColumnPath,
    pub logical: LogicalType,
    pub policy: SchemaPolicy,
    pub on_unsupported: OnUnsupported,
    pub nested: Nested,
    /// Whether the column is part of the merge key.
    pub is_key: bool,
    /// The type the stream's settings pin the column to.
    pub hint: Option<Hint>,
    /// The join of the type of each of the table's columns, in their order, with the incoming
    /// type: the least type that holds every value of both.
    pub joins: Vec<LogicalType>,
}

/// An incoming column as a mathematical value.
pub ghost struct ArrivingView {
    pub path: Seq<Seq<char>>,
    pub logical: TypeView,
    pub policy: SchemaPolicy,
    pub on_unsupported: OnUnsupported,
    pub nested: Nested,
    pub is_key: bool,
    pub hint: Option<(TypeView, TypeView)>,
    pub joins: Seq<TypeView>,
}

/// Types as mathematical values.
pub open spec fn type_views(types: Seq<LogicalType>) -> Seq<TypeView> {
    Seq::new(types.len(), |i: int| types[i]@)
}

impl Arriving {
    /// The column as a mathematical value.
    pub open spec fn view(&self) -> ArrivingView {
        ArrivingView {
            path: self.path@,
            logical: self.logical@,
            policy: self.policy,
            on_unsupported: self.on_unsupported,
            nested: self.nested,
            is_key: self.is_key,
            hint: match self.hint {
                Some(hint) => Some((hint.logical@, hint.joined@)),
                None => None,
            },
            joins: type_views(self.joins@),
        }
    }
}

impl ArrivingView {
    /// The type a column added for it has.
    pub open spec fn added_type(self) -> TypeView {
        match self.hint {
            Some((logical, _)) => logical,
            None => self.logical,
        }
    }

    /// What the type of a column added for it and the incoming type join to; a type and itself
    /// join to it.
    pub open spec fn added_join(self) -> TypeView {
        match self.hint {
            Some((_, joined)) => joined,
            None => self.logical,
        }
    }
}

/// An added column, before it has an identifier.
#[derive(Debug)]
pub struct Added {
    pub key: ColumnKey,
    pub logical: LogicalType,
    pub nullable: bool,
}

/// An added column as a mathematical value.
pub ghost struct AddedView {
    pub key: KeyView,
    pub logical: TypeView,
    pub nullable: bool,
}

impl Added {
    /// The column as a mathematical value.
    pub open spec fn view(&self) -> AddedView {
        AddedView { key: self.key@, logical: self.logical@, nullable: self.nullable }
    }
}

/// Added columns as mathematical values.
pub open spec fn added_views(adds: Seq<Added>) -> Seq<AddedView> {
    Seq::new(adds.len(), |i: int| adds[i]@)
}

/// A resolution in progress: the model, the columns it adds and the changes decided so far.
#[derive(Debug)]
pub struct Draft {
    pub model: Model,
    pub adds: Vec<Added>,
    pub changes: Vec<Change>,
}

/// A resolution in progress as a mathematical value.
#[verifier::ext_equal]
pub ghost struct DraftView {
    pub model: ModelView,
    pub adds: Seq<AddedView>,
    pub changes: Seq<ChangeView>,
}

impl Draft {
    /// The resolution as a mathematical value.
    pub open spec fn view(&self) -> DraftView {
        DraftView {
            model: self.model@,
            adds: added_views(self.adds@),
            changes: change_views(self.changes@),
        }
    }
}

impl DraftView {
    /// The type of the column at `column`, those added after the table's own.
    pub open spec fn column_type(self, column: int) -> TypeView {
        if column < self.model.columns.len() {
            self.model.columns[column].logical
        } else {
            self.adds[column - self.model.columns.len()].logical
        }
    }

    /// How many columns the table will have.
    pub open spec fn width(self) -> int {
        (self.model.columns.len() + self.adds.len()) as int
    }

    /// The resolution that also adds a column.
    pub open spec fn added(self, key: KeyView, logical: TypeView, nullable: bool) -> DraftView {
        DraftView {
            adds: self.adds.push(AddedView { key, logical, nullable }),
            changes: self.changes.push(ChangeView::Add { key }),
            ..self
        }
    }

    /// The resolution that also widens the table's column at `column` to `to`.
    pub open spec fn widened(self, column: int, to: TypeView) -> DraftView {
        let field = self.model.columns[column];
        DraftView {
            model: ModelView {
                columns: self.model.columns.update(column, FieldView { logical: to, ..field }),
                ..self.model
            },
            changes: self.changes.push(ChangeView::Widen { column, from: field.logical }),
            ..self
        }
    }
}

/// Why a column is refused.
#[derive(Debug)]
pub enum Cause {
    /// A frozen table has no column for it.
    NewColumn,
    /// The destination adds no columns.
    CannotAdd,
    /// The key's column, of this type, cannot hold it.
    KeyCannotHold { current: LogicalType },
    /// A frozen column, of this type, cannot hold it.
    CannotHold { current: LogicalType },
    /// The destination cannot change the column, of this type, and no variant may take it.
    CannotChange { current: LogicalType },
}

/// A cause as a mathematical value.
pub ghost enum CauseView {
    NewColumn,
    CannotAdd,
    KeyCannotHold { current: TypeView },
    CannotHold { current: TypeView },
    CannotChange { current: TypeView },
}

impl Cause {
    /// The cause as a mathematical value.
    pub open spec fn view(&self) -> CauseView {
        match *self {
            Cause::NewColumn => CauseView::NewColumn,
            Cause::CannotAdd => CauseView::CannotAdd,
            Cause::KeyCannotHold { current } => CauseView::KeyCannotHold { current: current@ },
            Cause::CannotHold { current } => CauseView::CannotHold { current: current@ },
            Cause::CannotChange { current } => CauseView::CannotChange { current: current@ },
        }
    }

    /// Which part of a run the refusal comes from: the batch, which its table cannot take.
    pub fn kind(&self) -> (kind: ErrorKind)
        ensures
            kind == ErrorKind::Schema,
    {
        ErrorKind::Schema
    }

    /// The refusal's code.
    pub fn code(&self) -> (code: &'static str)
        ensures
            code@ == match *self {
                Cause::NewColumn => "schema_frozen"@,
                Cause::CannotHold { .. } => "schema_frozen"@,
                Cause::KeyCannotHold { .. } => "merge_key_changed"@,
                Cause::CannotAdd => "schema_change_unsupported"@,
                Cause::CannotChange { .. } => "schema_change_unsupported"@,
            },
    {
        match self {
            Cause::NewColumn => "schema_frozen",
            Cause::CannotHold { .. } => "schema_frozen",
            Cause::KeyCannotHold { .. } => "merge_key_changed",
            Cause::CannotAdd => "schema_change_unsupported",
            Cause::CannotChange { .. } => "schema_change_unsupported",
        }
    }

    /// What the refusal says, `current` and `incoming` being the texts of the column's type and
    /// the incoming one.
    pub fn detail(&self, current: &str, incoming: &str) -> (text: String)
        ensures
            text@ == match *self {
                Cause::NewColumn => "a new column appeared"@,
                Cause::CannotAdd => "the destination cannot add columns"@,
                Cause::KeyCannotHold { .. } => "the column is "@ + current@
                    + " and the key cannot hold "@ + incoming@,
                Cause::CannotHold { .. } => "the column is "@ + current@ + " and cannot hold "@
                    + incoming@,
                Cause::CannotChange { .. } => "the column is "@ + current@
                    + " and the destination cannot change it, without a variant column, to hold "@
                    + incoming@,
            },
    {
        let mut text = String::new();
        match self {
            Cause::NewColumn => {
                text.append("a new column appeared");
                assert(text@ =~= "a new column appeared"@);
            },
            Cause::CannotAdd => {
                text.append("the destination cannot add columns");
                assert(text@ =~= "the destination cannot add columns"@);
            },
            Cause::KeyCannotHold { .. } => {
                text.append("the column is ");
                text.append(current);
                text.append(" and the key cannot hold ");
                text.append(incoming);
                assert(text@ =~= "the column is "@ + current@ + " and the key cannot hold "@
                    + incoming@);
            },
            Cause::CannotHold { .. } => {
                text.append("the column is ");
                text.append(current);
                text.append(" and cannot hold ");
                text.append(incoming);
                assert(text@ =~= "the column is "@ + current@ + " and cannot hold "@ + incoming@);
            },
            Cause::CannotChange { .. } => {
                text.append("the column is ");
                text.append(current);
                text.append(
                    " and the destination cannot change it, without a variant column, to hold ",
                );
                text.append(incoming);
                assert(text@ =~= "the column is "@ + current@
                    + " and the destination cannot change it, without a variant column, to hold "@
                    + incoming@);
            },
        }
        text
    }
}

/// Whether the destination can change a column of `from` to `to` in place: they are stored alike,
/// or it declares the widening.
pub open spec fn widens_in_place(
    capabilities: &Capabilities,
    from: TypeView,
    to: TypeView,
    nested: Nested,
) -> bool {
    let stored = lowered(from, nested, capabilities);
    let wanted = lowered(to, nested, capabilities);
    stored == wanted || capabilities.changes(stored.kind(), wanted.kind())
}

/// Whether the destination can change a column of `from` to `to` in place: they are stored alike,
/// or it declares the widening.
pub fn widens(capabilities: &Capabilities, from: &LogicalType, to: &LogicalType, nested: Nested) -> (
widens: bool)
    ensures
        widens == widens_in_place(capabilities, from@, to@, nested),
{
    let stored: LogicalType = lower(from, nested, capabilities);
    let wanted: LogicalType = lower(to, nested, capabilities);
    stored.same(&wanted) || capabilities.widens(stored.kind(), wanted.kind())
}

/// Every kind, in order.
pub open spec fn kinds() -> Seq<TypeKind> {
    seq![
        TypeKind::Null,
        TypeKind::Bool,
        TypeKind::Int8,
        TypeKind::Int16,
        TypeKind::Int32,
        TypeKind::Int64,
        TypeKind::Float32,
        TypeKind::Float64,
        TypeKind::Decimal,
        TypeKind::Utf8,
        TypeKind::Binary,
        TypeKind::Date,
        TypeKind::Time,
        TypeKind::Timestamp,
        TypeKind::Duration,
        TypeKind::Uuid,
        TypeKind::Json,
        TypeKind::Struct,
        TypeKind::List,
    ]
}

/// Every kind, in order.
fn all_kinds() -> (all: Vec<TypeKind>)
    ensures
        all@ == kinds(),
{
    vec![
        TypeKind::Null,
        TypeKind::Bool,
        TypeKind::Int8,
        TypeKind::Int16,
        TypeKind::Int32,
        TypeKind::Int64,
        TypeKind::Float32,
        TypeKind::Float64,
        TypeKind::Decimal,
        TypeKind::Utf8,
        TypeKind::Binary,
        TypeKind::Date,
        TypeKind::Time,
        TypeKind::Timestamp,
        TypeKind::Duration,
        TypeKind::Uuid,
        TypeKind::Json,
        TypeKind::Struct,
        TypeKind::List,
    ]
}

/// The positions of the table's variant columns of `path`, of the first `n` kinds, in kind order.
pub open spec fn variants(model: ModelView, path: Seq<Seq<char>>, n: int) -> Seq<int>
    decreases n,
{
    if n <= 0 {
        Seq::empty()
    } else {
        let before = variants(model, path, n - 1);
        match model.column(KeyView::Variant { column: path, kind: kinds()[n - 1] }) {
            Some(column) => before.push(column),
            None => before,
        }
    }
}

/// The columns that may hold a column's values: its own at `original`, and its variants in kind
/// order.
pub open spec fn candidates(model: ModelView, path: Seq<Seq<char>>, original: int) -> Seq<int> {
    seq![original] + variants(model, path, kinds().len() as int)
}

impl ArrivingView {
    /// What the type of the table's column at `column` and the incoming type join to.
    pub open spec fn join(self, draft: DraftView, column: int) -> TypeView {
        if column < draft.model.columns.len() {
            self.joins[column]
        } else {
            self.added_join()
        }
    }

    /// Picks the columns that hold every incoming value as it is.
    pub open spec fn fits(self, draft: DraftView) -> spec_fn(int) -> bool {
        |column: int| self.join(draft, column) == draft.column_type(column)
    }

    /// The first column that holds every incoming value as it is.
    pub open spec fn fitting(self, draft: DraftView, original: int) -> Option<int> {
        let all = candidates(draft.model, self.path, original);
        match first_where(all, self.fits(draft)) {
            Some(at) => Some(all[at]),
            None => None,
        }
    }
}

/// The variant column that takes a column's values, and the resolution once it does: the variant
/// of the joined type's kind, widened or added, or else the `Json` variant, which holds anything.
pub open spec fn variant_of(
    capabilities: &Capabilities,
    draft: DraftView,
    column: ArrivingView,
    joined: TypeView,
) -> (int, DraftView) {
    let kind = joined.kind();
    let key = KeyView::Variant { column: column.path, kind };
    let json = KeyView::Variant { column: column.path, kind: TypeKind::Json };
    match draft.model.column(key) {
        None => (draft.width(), draft.added(key, joined, true)),
        Some(existing) => {
            let current = draft.column_type(existing);
            let wider = column.join(draft, existing);
            if wider != TypeView::Json && wider.kind() == kind && widens_in_place(
                capabilities,
                current,
                wider,
                column.nested,
            ) {
                (existing, draft.widened(existing, wider))
            } else {
                match draft.model.column(json) {
                    Some(found) => (found, draft),
                    None => (draft.width(), draft.added(json, TypeView::Json, true)),
                }
            }
        },
    }
}

/// Where values of `column` go once it has its `original` column, and the resolution then.
pub open spec fn placed(
    capabilities: &Capabilities,
    draft: DraftView,
    column: ArrivingView,
    original: int,
) -> Result<(Route, DraftView), CauseView> {
    let current = draft.column_type(original);
    let joined = column.join(draft, original);
    let widens = column.hint is None && joined != TypeView::Json && widens_in_place(
        capabilities,
        current,
        joined,
        column.nested,
    );
    let here = Route::Column(original as usize);
    match column.fitting(draft, original) {
        Some(fitting) => Ok((Route::Column(fitting as usize), draft)),
        None => if column.is_key {
            if widens {
                Ok((here, draft.widened(original, joined)))
            } else {
                Err(CauseView::KeyCannotHold { current })
            }
        } else {
            match column.policy {
                SchemaPolicy::Freeze => Err(CauseView::CannotHold { current }),
                SchemaPolicy::DiscardRow => Ok((Route::DiscardRows, draft)),
                SchemaPolicy::DiscardValue => Ok((Route::DiscardValues, draft)),
                SchemaPolicy::Evolve => if widens {
                    Ok((here, draft.widened(original, joined)))
                } else if column.on_unsupported == OnUnsupported::Refuse
                    || !capabilities.add_column {
                    Err(CauseView::CannotChange { current })
                } else {
                    let (variant, next) = variant_of(capabilities, draft, column, joined);
                    Ok((Route::Column(variant as usize), next))
                },
            }
        },
    }
}

/// Where a column the table lacks goes instead of a new column of its own, if anywhere: a table
/// being created takes every column, an existing one follows the column's policy.
pub open spec fn admitted(
    capabilities: &Capabilities,
    column: ArrivingView,
    created: bool,
) -> Result<Option<Route>, CauseView> {
    if !created {
        Ok(None)
    } else if !column.is_key && column.policy == SchemaPolicy::Freeze {
        Err(CauseView::NewColumn)
    } else if !column.is_key && column.policy == SchemaPolicy::DiscardRow {
        Ok(Some(Route::DiscardRows))
    } else if !column.is_key && column.policy == SchemaPolicy::DiscardValue {
        Ok(Some(Route::DiscardValues))
    } else if !capabilities.add_column {
        Err(CauseView::CannotAdd)
    } else {
        Ok(None)
    }
}

/// Where `column` goes, and the resolution with the changes it needs.
pub open spec fn routed(
    capabilities: &Capabilities,
    draft: DraftView,
    column: ArrivingView,
    created: bool,
) -> Result<(Route, DraftView), CauseView> {
    let key = KeyView::Source(column.path);
    match draft.model.column(key) {
        Some(original) => if column.logical == TypeView::Null {
            Ok((Route::Column(original as usize), draft))
        } else {
            placed(capabilities, draft, column, original)
        },
        None => if column.logical == TypeView::Null {
            Ok((Route::Skip, draft))
        } else {
            match admitted(capabilities, column, created) {
                Err(cause) => Err(cause),
                Ok(Some(route)) => Ok((route, draft)),
                Ok(None) => placed(
                    capabilities,
                    draft.added(key, column.added_type(), !column.is_key),
                    column,
                    draft.width(),
                ),
            }
        },
    }
}

/// Where the first `n` of `columns` go, in their order, and the resolution then; or which of them
/// is refused first, and why.
pub open spec fn routed_all(
    capabilities: &Capabilities,
    model: ModelView,
    columns: Seq<ArrivingView>,
    n: int,
) -> Result<(Seq<Route>, DraftView), (int, CauseView)>
    decreases n,
{
    if n <= 0 {
        Ok((Seq::empty(), DraftView { model, adds: Seq::empty(), changes: Seq::empty() }))
    } else {
        match routed_all(capabilities, model, columns, n - 1) {
            Err(refused) => Err(refused),
            Ok((routes, draft)) => match routed(
                capabilities,
                draft,
                columns[n - 1],
                model.created(),
            ) {
                Err(cause) => Err((n - 1, cause)),
                Ok((route, next)) => Ok((routes.push(route), next)),
            },
        }
    }
}

proof fn lemma_update_views(fields: Seq<Field>, at: int, field: Field)
    requires
        0 <= at < fields.len(),
    ensures
        field_views(fields.update(at, field)) == field_views(fields).update(at, field@),
{
    lemma_field_views(fields);
    lemma_field_views(fields.update(at, field));
    assert(field_views(fields.update(at, field)) =~= field_views(fields).update(at, field@));
}

/// The variants of a path are columns of the table.
proof fn lemma_variants_are_columns(model: ModelView, path: Seq<Seq<char>>, n: int)
    requires
        n <= kinds().len(),
    ensures
        forall|i: int|
            0 <= i < variants(model, path, n).len() ==> 0 <= #[trigger] variants(model, path, n)[i]
                < model.columns.len(),
    decreases n,
{
    if n > 0 {
        lemma_variants_are_columns(model, path, n - 1);
        lemma_column_is_one(model, KeyView::Variant { column: path, kind: kinds()[n - 1] });
        let before = variants(model, path, n - 1);
        assert forall|i: int| 0 <= i < variants(model, path, n).len() implies 0
            <= #[trigger] variants(model, path, n)[i] < model.columns.len() by {
            if i < before.len() {
                assert(variants(model, path, n)[i] == before[i]);
            }
        }
    }
}

/// Where a key's column stands is in the table.
pub proof fn lemma_column_is_one(model: ModelView, key: KeyView)
    ensures
        model.column(key) matches Some(column) ==> 0 <= column < model.columns.len(),
{
    if let Some(name) = name_in(model.names, key) {
        lemma_first_where(model.columns, crate::table::model::has_name(name));
    }
}

impl Draft {
    /// A resolution that changes nothing yet.
    pub fn new(model: &Model) -> (draft: Draft)
        ensures
            draft@ == (DraftView { model: model@, adds: Seq::empty(), changes: Seq::empty() }),
    {
        let draft = Draft { model: model.clone(), adds: Vec::new(), changes: Vec::new() };
        assert(draft@ =~= (DraftView {
            model: model@,
            adds: Seq::empty(),
            changes: Seq::empty(),
        }));
        draft
    }

    /// The position of the table's column holding `key`.
    ///
    /// A batch holds each column once, so a column this resolution adds is never looked up again.
    pub fn find(&self, key: &ColumnKey) -> (column: Option<usize>)
        ensures
            match column {
                Some(column) => self@.model.column(key@) == Some(column as int) && column
                    < self.model.columns@.len(),
                None => self@.model.column(key@) is None,
            },
    {
        self.model.column(key)
    }

    /// The positions of the table's variant columns of `path`, in kind order.
    pub fn variants(&self, path: &ColumnPath) -> (columns: Vec<usize>)
        ensures
            Seq::new(columns@.len(), |i: int| columns@[i] as int) == variants(
                self@.model,
                path@,
                kinds().len() as int,
            ),
            forall|i: int| 0 <= i < columns@.len() ==> #[trigger] columns@[i]
                < self.model.columns@.len(),
    {
        let all: Vec<TypeKind> = all_kinds();
        let mut columns: Vec<usize> = Vec::new();
        let mut at: usize = 0;
        proof {
            assert(Seq::new(columns@.len(), |i: int| columns@[i] as int) =~= variants(
                self@.model,
                path@,
                0,
            ));
        }
        while at < all.len()
            invariant
                all@ == kinds(),
                at <= all@.len(),
                Seq::new(columns@.len(), |i: int| columns@[i] as int) == variants(
                    self@.model,
                    path@,
                    at as int,
                ),
                forall|i: int| 0 <= i < columns@.len() ==> #[trigger] columns@[i]
                    < self.model.columns@.len(),
            decreases all@.len() - at,
        {
            let ghost before = columns@;
            let key = ColumnKey::Variant { column: path.clone(), kind: all[at] };
            if let Some(column) = self.find(&key) {
                columns.push(column);
                assert(Seq::new(columns@.len(), |i: int| columns@[i] as int) =~= Seq::new(
                    before.len(),
                    |i: int| before[i] as int,
                ).push(column as int));
            }
            at = at + 1;
        }
        columns
    }

    /// Whether the column at `column` holds every value of `arriving` as it is.
    pub fn holds(&self, arriving: &Arriving, column: usize) -> (fits: bool)
        requires
            column < self@.width(),
            arriving.joins@.len() == self.model.columns@.len(),
        ensures
            fits == (arriving@.fits(self@))(column as int),
    {
        proof {
            lemma_field_views(self.model.columns@);
        }
        if column < self.model.columns.len() {
            proof {
                assert(field_views(self.model.columns@)[column as int]
                    == self.model.columns@[column as int]@);
            }
            arriving.joins[column].same(&self.model.columns[column].logical)
        } else {
            let added: &Added = &self.adds[column - self.model.columns.len()];
            match &arriving.hint {
                Some(hint) => hint.joined.same(&added.logical),
                None => arriving.logical.same(&added.logical),
            }
        }
    }

    /// The first of a column's own column and its variants that holds its values as they are.
    pub fn fitting(&self, arriving: &Arriving, original: usize) -> (fitting: Option<usize>)
        requires
            original < self@.width(),
            arriving.joins@.len() == self.model.columns@.len(),
        ensures
            match fitting {
                Some(fitting) => arriving@.fitting(self@, original as int) == Some(fitting as int),
                None => arriving@.fitting(self@, original as int) is None,
            },
    {
        let ghost all = candidates(self@.model, arriving@.path, original as int);
        let ghost fits = arriving@.fits(self@);
        proof {
            lemma_field_views(self.model.columns@);
        }
        let others: Vec<usize> = self.variants(&arriving.path);
        proof {
            assert(all[0] == original);
            assert(forall|i: int| 0 <= i < others@.len() ==> all[i + 1] == #[trigger] others@[i]) by {
                assert forall|i: int| 0 <= i < others@.len() implies all[i + 1] == #[trigger]
                    others@[i] by {
                    assert(Seq::new(others@.len(), |j: int| others@[j] as int)[i] == others@[i]);
                }
            }
            assert(all.len() == others@.len() + 1);
        }
        if self.holds(arriving, original) {
            proof {
                lemma_first_is(all, fits, 0);
            }
            return Some(original);
        }
        let mut at: usize = 0;
        while at < others.len()
            invariant
                at <= others@.len(),
                all == candidates(self@.model, arriving@.path, original as int),
                fits == arriving@.fits(self@),
                all.len() == others@.len() + 1,
                forall|i: int| 0 <= i < others@.len() ==> all[i + 1] == #[trigger] others@[i],
                forall|i: int| 0 <= i < others@.len() ==> #[trigger] others@[i]
                    < self.model.columns@.len(),
                field_views(self.model.columns@).len() == self.model.columns@.len(),
                forall|i: int| 0 <= i <= at ==> !fits(#[trigger] all[i]),
                arriving.joins@.len() == self.model.columns@.len(),
            decreases others@.len() - at,
        {
            proof {
                assert(all[at + 1] == others@[at as int]);
            }
            if self.holds(arriving, others[at]) {
                proof {
                    lemma_first_is(all, fits, at + 1);
                }
                return Some(others[at]);
            }
            at = at + 1;
        }
        proof {
            lemma_first_is_none(all, fits);
        }
        None
    }

    /// The type of the column at `column`.
    pub fn column_type(&self, column: usize) -> (logical: LogicalType)
        requires
            column < self@.width(),
        ensures
            logical@ == self@.column_type(column as int),
    {
        proof {
            lemma_field_views(self.model.columns@);
        }
        if column < self.model.columns.len() {
            proof {
                assert(field_views(self.model.columns@)[column as int]
                    == self.model.columns@[column as int]@);
            }
            self.model.columns[column].logical.clone()
        } else {
            self.adds[column - self.model.columns.len()].logical.clone()
        }
    }

    /// What the type of the column at `column` and the incoming type join to.
    pub fn join(&self, arriving: &Arriving, column: usize) -> (joined: LogicalType)
        requires
            column < self@.width(),
            arriving.joins@.len() == self.model.columns@.len(),
        ensures
            joined@ == arriving@.join(self@, column as int),
    {
        proof {
            lemma_field_views(self.model.columns@);
        }
        if column < self.model.columns.len() {
            arriving.joins[column].clone()
        } else {
            match &arriving.hint {
                Some(hint) => hint.joined.clone(),
                None => arriving.logical.clone(),
            }
        }
    }

    /// Adds the column for `key`; returns its position.
    pub fn add(&mut self, key: ColumnKey, logical: LogicalType, nullable: bool) -> (column: usize)
        requires
            old(self)@.width() < usize::MAX,
        ensures
            final(self)@ == old(self)@.added(key@, logical@, nullable),
            column == old(self)@.width(),
    {
        proof {
            lemma_field_views(self.model.columns@);
        }
        let ghost before = self@;
        let column: usize = self.model.columns.len() + self.adds.len();
        self.changes.push(Change::Add { key: key.clone() });
        self.adds.push(Added { key, logical, nullable });
        assert(self@.adds =~= before.added(key@, logical@, nullable).adds);
        assert(self@.changes =~= before.added(key@, logical@, nullable).changes);
        column
    }

    /// Widens the table's column at `column` to `to`.
    ///
    /// Only existing columns widen: a column this resolution adds takes its final type when added.
    pub fn widen(&mut self, column: usize, to: LogicalType)
        requires
            column < old(self)@.model.columns.len(),
        ensures
            final(self)@ == old(self)@.widened(column as int, to@),
    {
        let ghost before = self@;
        proof {
            lemma_field_views(self.model.columns@);
            assert(field_views(self.model.columns@)[column as int]
                == self.model.columns@[column as int]@);
        }
        let field: Field = self.model.columns[column].clone();
        let from: LogicalType = field.logical;
        let wider = Field { name: field.name, logical: to, nullable: field.nullable };
        proof {
            lemma_update_views(self.model.columns@, column as int, wider);
        }
        self.model.columns.set(column, wider);
        self.changes.push(Change::Widen { column, from });
        assert(self@.changes =~= before.widened(column as int, to@).changes);
        assert(self@.model.columns =~= before.widened(column as int, to@).model.columns);
    }
}

/// Whether `original` is a column of the table, or the column just added for `column`.
pub open spec fn is_own_column(draft: DraftView, column: ArrivingView, original: int) -> bool {
    0 <= original < draft.model.columns.len() || (original + 1 == draft.width() && original
        >= draft.model.columns.len() && draft.column_type(original) == column.added_type())
}

/// A column just added takes its values as they are, unless a hint gave it another type.
pub proof fn lemma_added_fits(draft: DraftView, column: ArrivingView, original: int)
    requires
        is_own_column(draft, column, original),
        original >= draft.model.columns.len(),
        column.hint is None,
    ensures
        column.fitting(draft, original) == Some(original),
{
    let all = candidates(draft.model, column.path, original);
    assert(all[0] == original);
    assert((column.fits(draft))(original));
    lemma_first_is(all, column.fits(draft), 0);
}

/// What becomes of one column, as mathematical values.
pub open spec fn outcome(route: Result<Route, Cause>, draft: DraftView) -> Result<
    (Route, DraftView),
    CauseView,
> {
    match route {
        Ok(route) => Ok((route, draft)),
        Err(cause) => Err(cause@),
    }
}

/// The variant column that takes `column`'s values: the variant of the joined type's kind, widened
/// or added, or else the `Json` variant, which holds anything.
pub fn variant(
    capabilities: &Capabilities,
    draft: &mut Draft,
    column: &Arriving,
    joined: &LogicalType,
) -> (variant: usize)
    requires
        column.joins@.len() == old(draft).model.columns@.len(),
        old(draft)@.width() < usize::MAX,
    ensures
        variant_of(capabilities, old(draft)@, column@, joined@) == (variant as int, final(draft)@),
{
    proof {
        lemma_field_views(draft.model.columns@);
    }
    let kind: TypeKind = joined.kind();
    let key = ColumnKey::Variant { column: column.path.clone(), kind };
    let existing: usize = match draft.find(&key) {
        Some(existing) => existing,
        None => return draft.add(key, joined.clone(), true),
    };
    let current: LogicalType = draft.column_type(existing);
    let wider: LogicalType = draft.join(column, existing);
    let is_json: bool = wider.same(&LogicalType::Json);
    if !is_json && wider.kind() == kind && widens(capabilities, &current, &wider, column.nested) {
        draft.widen(existing, wider);
        return existing;
    }
    let json = ColumnKey::Variant { column: column.path.clone(), kind: TypeKind::Json };
    match draft.find(&json) {
        Some(found) => found,
        None => draft.add(json, LogicalType::Json, true),
    }
}

/// Where values of `column` go once it has its `original` column.
pub fn place(
    capabilities: &Capabilities,
    draft: &mut Draft,
    column: &Arriving,
    original: usize,
) -> (route: Result<Route, Cause>)
    requires
        column.joins@.len() == old(draft).model.columns@.len(),
        old(draft)@.width() < usize::MAX,
        is_own_column(old(draft)@, column@, original as int),
    ensures
        placed(capabilities, old(draft)@, column@, original as int) == outcome(route, final(draft)@),
{
    proof {
        lemma_field_views(draft.model.columns@);
    }
    if let Some(fitting) = draft.fitting(column, original) {
        return Ok(Route::Column(fitting));
    }
    let current: LogicalType = draft.column_type(original);
    let joined: LogicalType = draft.join(column, original);
    let is_json: bool = joined.same(&LogicalType::Json);
    let wide: bool = column.hint.is_none() && !is_json && widens(
        capabilities,
        &current,
        &joined,
        column.nested,
    );
    proof {
        if column.hint is None && original >= draft@.model.columns.len() {
            lemma_added_fits(draft@, column@, original as int);
        }
    }
    if column.is_key {
        if wide {
            draft.widen(original, joined);
            return Ok(Route::Column(original));
        }
        return Err(Cause::KeyCannotHold { current });
    }
    match column.policy {
        SchemaPolicy::Freeze => return Err(Cause::CannotHold { current }),
        SchemaPolicy::DiscardRow => return Ok(Route::DiscardRows),
        SchemaPolicy::DiscardValue => return Ok(Route::DiscardValues),
        SchemaPolicy::Evolve => {},
    }
    if wide {
        draft.widen(original, joined);
        return Ok(Route::Column(original));
    }
    if column.on_unsupported == OnUnsupported::Refuse || !capabilities.add_column {
        return Err(Cause::CannotChange { current });
    }
    Ok(Route::Column(variant(capabilities, draft, column, &joined)))
}

/// Where a column the table lacks goes instead of a new column of its own, if anywhere.
///
/// A table being created takes every column; an existing one follows the column's policy.
pub fn admission(capabilities: &Capabilities, column: &Arriving, created: bool) -> (route: Result<
    Option<Route>,
    Cause,
>)
    ensures
        match route {
            Ok(route) => admitted(capabilities, column@, created) == Ok::<
                Option<Route>,
                CauseView,
            >(route),
            Err(cause) => admitted(capabilities, column@, created) == Err::<
                Option<Route>,
                CauseView,
            >(cause@),
        },
{
    if !created {
        return Ok(None);
    }
    if !column.is_key {
        match column.policy {
            SchemaPolicy::Freeze => return Err(Cause::NewColumn),
            SchemaPolicy::DiscardRow => return Ok(Some(Route::DiscardRows)),
            SchemaPolicy::DiscardValue => return Ok(Some(Route::DiscardValues)),
            SchemaPolicy::Evolve => {},
        }
    }
    if !capabilities.add_column {
        return Err(Cause::CannotAdd);
    }
    Ok(None)
}

/// Where `column` goes, recording the changes it needs.
pub fn route(capabilities: &Capabilities, draft: &mut Draft, column: &Arriving, created: bool) -> (
route: Result<Route, Cause>)
    requires
        column.joins@.len() == old(draft).model.columns@.len(),
        old(draft)@.width() < usize::MAX - 1,
    ensures
        match route {
            Ok(route) => routed(capabilities, old(draft)@, column@, created) == Ok::<
                (Route, DraftView),
                CauseView,
            >((route, final(draft)@)),
            Err(cause) => routed(capabilities, old(draft)@, column@, created) == Err::<
                (Route, DraftView),
                CauseView,
            >(cause@),
        },
{
    proof {
        lemma_field_views(draft.model.columns@);
    }
    let key = ColumnKey::Source(column.path.clone());
    let found: Option<usize> = draft.find(&key);
    if column.logical.same(&LogicalType::Null) {
        return match found {
            Some(original) => Ok(Route::Column(original)),
            None => Ok(Route::Skip),
        };
    }
    let original: usize = match found {
        Some(original) => original,
        None => {
            match admission(capabilities, column, created) {
                Err(cause) => return Err(cause),
                Ok(Some(route)) => return Ok(route),
                Ok(None) => {},
            }
            let logical: LogicalType = match &column.hint {
                Some(hint) => hint.logical.clone(),
                None => column.logical.clone(),
            };
            draft.add(key, logical, !column.is_key)
        },
    };
    proof {
        lemma_field_views(draft.model.columns@);
    }
    place(capabilities, draft, column, original)
}

/// The resolution of a batch whose added columns have no identifiers yet.
#[derive(Debug)]
pub struct Unnamed {
    pub draft: Draft,
    /// Where each incoming column goes, in the batch's column order.
    pub routes: Vec<Route>,
}

/// An incoming column that is refused, by its position in the batch.
#[derive(Debug)]
pub struct Refused {
    pub column: usize,
    pub cause: Cause,
}

/// Incoming columns as mathematical values.
pub open spec fn arriving_views(columns: Seq<Arriving>) -> Seq<ArrivingView> {
    Seq::new(columns.len(), |i: int| columns[i]@)
}

/// Whether `columns` are of different paths: a batch holds each column once.
pub open spec fn are_distinct(columns: Seq<ArrivingView>) -> bool {
    forall|i: int, j: int|
        0 <= i < j < columns.len() ==> (#[trigger] columns[i]).path != (#[trigger] columns[j]).path
}

/// A column's place needs one more column at most.
proof fn lemma_placed_width(
    capabilities: &Capabilities,
    draft: DraftView,
    column: ArrivingView,
    original: int,
)
    requires
        is_own_column(draft, column, original),
    ensures
        placed(capabilities, draft, column, original) matches Ok((_, next)) ==> {
            &&& next.model.columns.len() == draft.model.columns.len()
            &&& draft.adds.len() <= next.adds.len() <= draft.adds.len() + 1
        },
{
    let joined = column.join(draft, original);
    lemma_column_is_one(draft.model, KeyView::Variant { column: column.path, kind: joined.kind() });
    if original >= draft.model.columns.len() && column.hint is None {
        lemma_added_fits(draft, column, original);
    }
}

/// A column's route needs two more columns at most.
proof fn lemma_routed_width(
    capabilities: &Capabilities,
    draft: DraftView,
    column: ArrivingView,
    created: bool,
)
    ensures
        routed(capabilities, draft, column, created) matches Ok((_, next)) ==> {
            &&& next.model.columns.len() == draft.model.columns.len()
            &&& draft.adds.len() <= next.adds.len() <= draft.adds.len() + 2
        },
{
    let key = KeyView::Source(column.path);
    if let Some(original) = draft.model.column(key) {
        lemma_column_is_one(draft.model, key);
        lemma_placed_width(capabilities, draft, column, original);
    } else {
        let wider = draft.added(key, column.added_type(), !column.is_key);
        lemma_placed_width(capabilities, wider, column, draft.width());
    }
}

/// A resolution adds two columns at most for each incoming one.
proof fn lemma_width(capabilities: &Capabilities, model: ModelView, columns: Seq<ArrivingView>, n: int)
    requires
        0 <= n <= columns.len(),
    ensures
        routed_all(capabilities, model, columns, n) matches Ok((routes, draft)) ==> {
            &&& routes.len() == n
            &&& draft.model.columns.len() == model.columns.len()
            &&& draft.width() <= model.columns.len() + 2 * n
        },
    decreases n,
{
    if n > 0 {
        lemma_width(capabilities, model, columns, n - 1);
        if let Ok((_, draft)) = routed_all(capabilities, model, columns, n - 1) {
            lemma_routed_width(capabilities, draft, columns[n - 1], model.created());
        }
    }
}

/// A fault among the first columns is the fault of them all.
proof fn lemma_first_refused(
    capabilities: &Capabilities,
    model: ModelView,
    columns: Seq<ArrivingView>,
    n: int,
    all: int,
)
    requires
        n <= all,
        routed_all(capabilities, model, columns, n) is Err,
    ensures
        routed_all(capabilities, model, columns, all) == routed_all(
            capabilities,
            model,
            columns,
            n,
        ),
    decreases all - n,
{
    if n < all {
        lemma_first_refused(capabilities, model, columns, n, all - 1);
    }
}

/// Whether `resolution` is how a batch of `columns` fits `model`, but for the identifiers of the
/// columns it adds.
pub open spec fn is_resolution(
    capabilities: &Capabilities,
    model: ModelView,
    columns: Seq<Arriving>,
    resolution: Result<Unnamed, Refused>,
) -> bool {
    let routed = routed_all(
        capabilities,
        model,
        arriving_views(columns),
        columns.len() as int,
    );
    match resolution {
        Ok(unnamed) => routed == Ok::<(Seq<Route>, DraftView), (int, CauseView)>(
            (unnamed.routes@, unnamed.draft@),
        ),
        Err(refused) => routed == Err::<(Seq<Route>, DraftView), (int, CauseView)>(
            (refused.column as int, refused.cause@),
        ),
    }
}

/// How a batch of `columns` fits `model`, but for the identifiers of the columns it adds: the
/// changes the table needs and where each column goes; or the first column that is refused.
///
/// A table not yet created takes every column of its first batch. After that, a column the table
/// lacks or a value its column cannot hold is a change, which the column's policy applies, refuses
/// or discards. A batch holds each column once, so that a column is joined with the types its
/// table's columns have before the batch.
pub fn resolve_columns(capabilities: &Capabilities, model: &Model, columns: &Vec<Arriving>) -> (
resolution: Result<Unnamed, Refused>)
    requires
        forall|i: int|
            0 <= i < columns@.len() ==> (#[trigger] columns@[i]).joins@.len()
                == model.columns@.len(),
        model.columns@.len() + 2 * columns@.len() < usize::MAX - 2,
        are_distinct(arriving_views(columns@)),
    ensures
        is_resolution(capabilities, model@, columns@, resolution),
{
    let ghost views = arriving_views(columns@);
    let created: bool = model.created();
    let mut draft = Draft::new(model);
    let mut routes: Vec<Route> = Vec::new();
    let mut at: usize = 0;
    proof {
        lemma_field_views(model.columns@);
        assert(routes@ =~= Seq::empty());
    }
    while at < columns.len()
        invariant
            at <= columns@.len(),
            views == arriving_views(columns@),
            created == model@.created(),
            field_views(model.columns@).len() == model.columns@.len(),
            routed_all(capabilities, model@, views, at as int) == Ok::<
                (Seq<Route>, DraftView),
                (int, CauseView),
            >((routes@, draft@)),
            forall|i: int|
                0 <= i < columns@.len() ==> (#[trigger] columns@[i]).joins@.len()
                    == model.columns@.len(),
            model.columns@.len() + 2 * columns@.len() < usize::MAX - 2,
        decreases columns@.len() - at,
    {
        proof {
            lemma_width(capabilities, model@, views, at as int);
            lemma_field_views(draft.model.columns@);
            assert(views[at as int] == columns@[at as int]@);
        }
        match route(capabilities, &mut draft, &columns[at], created) {
            Ok(route) => routes.push(route),
            Err(cause) => {
                proof {
                    lemma_first_refused(
                        capabilities,
                        model@,
                        views,
                        at + 1,
                        columns@.len() as int,
                    );
                }
                return Err(Refused { column: at, cause });
            },
        }
        at = at + 1;
    }
    Ok(Unnamed { draft, routes })
}

/// How a batch fits its table.
#[derive(Debug)]
pub struct Resolution {
    /// The changes the table needs, in order; none when the batch fits as it is.
    pub changes: Vec<Change>,
    /// Where each incoming column goes, in the batch's column order.
    pub routes: Vec<Route>,
    /// The model once the changes apply.
    pub model: Model,
}

/// The identifiers of a table with that of `key`: the one it has, or `name`.
pub open spec fn with_name(
    names: Seq<(KeyView, Seq<char>)>,
    key: KeyView,
    name: Seq<char>,
) -> Seq<(KeyView, Seq<char>)> {
    if name_in(names, key) is Some {
        names
    } else {
        names.push((key, name))
    }
}

/// The model with the first `n` added columns, each under the identifier it has or is given.
pub open spec fn with_added(
    model: ModelView,
    adds: Seq<AddedView>,
    names: Seq<Seq<char>>,
    n: int,
) -> ModelView
    decreases n,
{
    if n <= 0 {
        model
    } else {
        let before = with_added(model, adds, names, n - 1);
        let added = adds[n - 1];
        let known = with_name(before.names, added.key, names[n - 1]);
        ModelView {
            columns: before.columns.push(
                FieldView {
                    name: name_in(known, added.key)->0,
                    logical: added.logical,
                    nullable: added.nullable,
                },
            ),
            names: known,
            ..before
        }
    }
}

/// The model once a resolution's changes apply, its added columns being given `names`: one version
/// on where there are any. A normalized stream's table holds its rows' lineage even where they
/// hold no other value, so its first batch creates it.
pub open spec fn resolved_model(
    draft: DraftView,
    names: Seq<Seq<char>>,
    normalized: bool,
) -> ModelView {
    let model = with_added(draft.model, draft.adds, names, draft.adds.len() as int);
    let version = if draft.changes.len() > 0 {
        (model.version + 1) as u32
    } else {
        model.version
    };
    ModelView {
        version: if normalized && version == 0 {
            1
        } else {
            version
        },
        ..model
    }
}

proof fn lemma_with_added_keeps(
    model: ModelView,
    adds: Seq<AddedView>,
    names: Seq<Seq<char>>,
    n: int,
)
    requires
        0 <= n,
    ensures
        with_added(model, adds, names, n).version == model.version,
        with_added(model, adds, names, n).columns.len() == model.columns.len() + n,
        with_added(model, adds, names, n).columns.take(model.columns.len() as int)
            == model.columns,
    decreases n,
{
    if n > 0 {
        lemma_with_added_keeps(model, adds, names, n - 1);
        assert(with_added(model, adds, names, n).columns.take(model.columns.len() as int)
            =~= with_added(model, adds, names, n - 1).columns.take(model.columns.len() as int));
    } else {
        assert(model.columns.take(model.columns.len() as int) =~= model.columns);
    }
}

/// Whether `resolution` is `unnamed` once the columns it adds are given `names`, in a table that is
/// a normalized stream's or not.
pub open spec fn is_finished(
    unnamed: Unnamed,
    names: Seq<String>,
    normalized: bool,
    resolution: Resolution,
) -> bool {
    &&& resolution.routes@ == unnamed.routes@
    &&& change_views(resolution.changes@) == unnamed.draft@.changes
    &&& resolution.model@ == resolved_model(
        unnamed.draft@,
        crate::table::model::texts(names),
        normalized,
    )
}

impl Unnamed {
    /// The columns the resolution adds, which want identifiers, in order.
    pub fn added(&self) -> (adds: &Vec<Added>)
        ensures
            *adds == self.draft.adds,
    {
        &self.draft.adds
    }

    /// The resolution, the columns it adds under `names`, in order; `normalized` says whether the
    /// table is a normalized stream's.
    pub fn finish(self, names: Vec<String>, normalized: bool) -> (resolution: Resolution)
        requires
            names@.len() == self.draft.adds@.len(),
            self.draft.model.version < u32::MAX,
        ensures
            is_finished(self, names@, normalized, resolution),
    {
        let ghost given = crate::table::model::texts(names@);
        let ghost start = self.draft@;
        let Draft { model, adds, changes } = self.draft;
        let mut model: Model = model;
        let mut at: usize = 0;
        while at < adds.len()
            invariant
                at <= adds@.len(),
                names@.len() == adds@.len(),
                given == crate::table::model::texts(names@),
                start.adds == added_views(adds@),
                model@ == with_added(start.model, start.adds, given, at as int),
            decreases adds@.len() - at,
        {
            let added: &Added = &adds[at];
            let ghost before = model@;
            proof {
                lemma_field_views(model.columns@);
                assert(start.adds[at as int] == added@);
                assert(given[at as int] == names@[at as int]@);
            }
            let name: String = match model.names.get(&added.key) {
                Some(name) => name.clone(),
                None => {
                    let name: String = names[at].clone();
                    let ghost entry = (added.key@, name@);
                    proof {
                        lemma_name_given(before.names, added.key@, name@);
                    }
                    let mut entries: Vec<(ColumnKey, String)> = Vec::new();
                    std::mem::swap(&mut entries, &mut model.names.entries);
                    entries.push((added.key.clone(), name.clone()));
                    model.names = NameMap { entries };
                    assert(model.names@ =~= before.names.push(entry));
                    name
                },
            };
            let field = Field {
                name,
                logical: added.logical.clone(),
                nullable: added.nullable,
            };
            let ghost columns = model.columns@;
            model.columns.push(field);
            proof {
                lemma_push_view(columns, field);
                assert(model@ =~= with_added(start.model, start.adds, given, at + 1));
            }
            at = at + 1;
        }
        proof {
            lemma_with_added_keeps(start.model, start.adds, given, adds@.len() as int);
        }
        if changes.len() > 0 {
            model.version = model.version + 1;
        }
        if normalized && model.version == 0 {
            model.version = 1;
        }
        Resolution { changes, routes: self.routes, model }
    }
}

proof fn lemma_push_view(fields: Seq<Field>, field: Field)
    ensures
        field_views(fields.push(field)) == field_views(fields).push(field@),
{
    assert(fields.push(field).drop_last() =~= fields);
}

proof fn lemma_name_given(names: Seq<(KeyView, Seq<char>)>, key: KeyView, name: Seq<char>)
    requires
        name_in(names, key) is None,
    ensures
        name_in(names.push((key, name)), key) == Some(name),
{
    let more = names.push((key, name));
    assert(more.drop_last() =~= names);
}

/// Whether a route, if it leads to a column, leads to one of the first `width`.
pub open spec fn leads_within(route: Route, width: int) -> bool {
    route matches Route::Column(column) ==> column < width
}

proof fn lemma_fitting_is_a_column(draft: DraftView, column: ArrivingView, original: int)
    requires
        is_own_column(draft, column, original),
    ensures
        column.fitting(draft, original) matches Some(fitting) ==> 0 <= fitting < draft.width(),
{
    let all = candidates(draft.model, column.path, original);
    let kept = variants(draft.model, column.path, kinds().len() as int);
    lemma_first_where(all, column.fits(draft));
    lemma_variants_are_columns(draft.model, column.path, kinds().len() as int);
    assert forall|i: int| 0 <= i < all.len() implies 0 <= #[trigger] all[i] < draft.width() by {
        if i > 0 {
            assert(all[i] == kept[i - 1]);
        }
    }
}

proof fn lemma_placed_within(
    capabilities: &Capabilities,
    draft: DraftView,
    column: ArrivingView,
    original: int,
)
    requires
        is_own_column(draft, column, original),
        draft.width() < usize::MAX,
    ensures
        placed(capabilities, draft, column, original) matches Ok((route, next)) ==> leads_within(
            route,
            next.width(),
        ),
{
    let joined = column.join(draft, original);
    lemma_fitting_is_a_column(draft, column, original);
    lemma_column_is_one(draft.model, KeyView::Variant { column: column.path, kind: joined.kind() });
    lemma_column_is_one(
        draft.model,
        KeyView::Variant { column: column.path, kind: TypeKind::Json },
    );
    if original >= draft.model.columns.len() && column.hint is None {
        lemma_added_fits(draft, column, original);
    }
}

proof fn lemma_routed_within(
    capabilities: &Capabilities,
    draft: DraftView,
    column: ArrivingView,
    created: bool,
)
    requires
        draft.width() < usize::MAX - 1,
    ensures
        routed(capabilities, draft, column, created) matches Ok((route, next)) ==> leads_within(
            route,
            next.width(),
        ),
{
    let key = KeyView::Source(column.path);
    if let Some(original) = draft.model.column(key) {
        lemma_column_is_one(draft.model, key);
        lemma_placed_within(capabilities, draft, column, original);
    } else {
        let wider = draft.added(key, column.added_type(), !column.is_key);
        lemma_placed_within(capabilities, wider, column, draft.width());
    }
}

/// Every incoming column that goes to a column goes to one of the table's, or to one the
/// resolution adds: no value is sent nowhere by a route.
pub proof fn law_routes_lead_to_columns(
    capabilities: &Capabilities,
    model: ModelView,
    columns: Seq<ArrivingView>,
    n: int,
)
    requires
        0 <= n <= columns.len(),
        model.columns.len() + 2 * columns.len() < usize::MAX - 2,
    ensures
        routed_all(capabilities, model, columns, n) matches Ok((routes, draft)) ==> {
            &&& routes.len() == n
            &&& forall|i: int| 0 <= i < n ==> leads_within(#[trigger] routes[i], draft.width())
        },
    decreases n,
{
    lemma_width(capabilities, model, columns, n);
    if n > 0 {
        law_routes_lead_to_columns(capabilities, model, columns, n - 1);
        if let Ok((routes, draft)) = routed_all(capabilities, model, columns, n - 1) {
            let column = columns[n - 1];
            lemma_width(capabilities, model, columns, n - 1);
            lemma_routed_within(capabilities, draft, column, model.created());
            lemma_routed_width(capabilities, draft, column, model.created());
            if let Ok((route, next)) = routed(capabilities, draft, column, model.created()) {
                assert forall|i: int| 0 <= i < n implies leads_within(
                    #[trigger] routes.push(route)[i],
                    next.width(),
                ) by {
                    if i < n - 1 {
                        assert(leads_within(routes[i], draft.width()));
                    }
                }
            }
        }
    }
}

/// Whether the columns of `after` begin with those of `before`, of the same identifiers and
/// nullability, and its identifiers with those of `before`.
pub open spec fn keeps_columns(before: ModelView, after: ModelView) -> bool {
    &&& before.columns.len() <= after.columns.len()
    &&& forall|i: int|
        0 <= i < before.columns.len() ==> (#[trigger] after.columns[i]).name
            == before.columns[i].name && after.columns[i].nullable == before.columns[i].nullable
    &&& before.names.len() <= after.names.len()
    &&& forall|i: int| 0 <= i < before.names.len() ==> #[trigger] after.names[i] == before.names[i]
}

proof fn lemma_routed_keeps(
    capabilities: &Capabilities,
    draft: DraftView,
    column: ArrivingView,
    created: bool,
)
    ensures
        routed(capabilities, draft, column, created) matches Ok((_, next)) ==> keeps_columns(
            draft.model,
            next.model,
        ) && next.model.version == draft.model.version && next.changes.len() >= draft.changes.len(),
{
    let key = KeyView::Source(column.path);
    lemma_column_is_one(draft.model, key);
    if let Some(original) = draft.model.column(key) {
        lemma_placed_keeps(capabilities, draft, column, original);
    } else {
        let wider = draft.added(key, column.added_type(), !column.is_key);
        lemma_placed_keeps(capabilities, wider, column, draft.width());
    }
}

proof fn lemma_placed_keeps(
    capabilities: &Capabilities,
    draft: DraftView,
    column: ArrivingView,
    original: int,
)
    requires
        is_own_column(draft, column, original),
    ensures
        placed(capabilities, draft, column, original) matches Ok((_, next)) ==> keeps_columns(
            draft.model,
            next.model,
        ) && next.model.version == draft.model.version && next.changes.len() >= draft.changes.len(),
{
    let joined = column.join(draft, original);
    lemma_column_is_one(draft.model, KeyView::Variant { column: column.path, kind: joined.kind() });
    if original >= draft.model.columns.len() && column.hint is None {
        lemma_added_fits(draft, column, original);
    }
}

pub proof fn lemma_all_keep(
    capabilities: &Capabilities,
    model: ModelView,
    columns: Seq<ArrivingView>,
    n: int,
)
    requires
        0 <= n <= columns.len(),
    ensures
        routed_all(capabilities, model, columns, n) matches Ok((_, draft)) ==> keeps_columns(
            model,
            draft.model,
        ) && draft.model.version == model.version,
    decreases n,
{
    if n > 0 {
        lemma_all_keep(capabilities, model, columns, n - 1);
        if let Ok((_, draft)) = routed_all(capabilities, model, columns, n - 1) {
            lemma_routed_keeps(capabilities, draft, columns[n - 1], model.created());
        }
    }
}

proof fn lemma_with_added_keeps_names(
    model: ModelView,
    adds: Seq<AddedView>,
    names: Seq<Seq<char>>,
    n: int,
)
    requires
        0 <= n,
    ensures
        keeps_columns(model, with_added(model, adds, names, n)),
    decreases n,
{
    if n > 0 {
        lemma_with_added_keeps_names(model, adds, names, n - 1);
    }
}

/// A table's columns keep their identifiers, their order and their nullability through every
/// resolution, and its identifiers what they name: columns are appended and widened only.
pub proof fn law_columns_stay(
    capabilities: &Capabilities,
    model: ModelView,
    columns: Seq<ArrivingView>,
    names: Seq<Seq<char>>,
    normalized: bool,
)
    ensures
        routed_all(capabilities, model, columns, columns.len() as int) matches Ok((_, draft))
            ==> keeps_columns(model, resolved_model(draft, names, normalized)),
{
    lemma_all_keep(capabilities, model, columns, columns.len() as int);
    if let Ok((_, draft)) = routed_all(capabilities, model, columns, columns.len() as int) {
        let added = with_added(draft.model, draft.adds, names, draft.adds.len() as int);
        lemma_with_added_keeps_names(draft.model, draft.adds, names, draft.adds.len() as int);
        assert(keeps_columns(model, added)) by {
            assert forall|i: int| 0 <= i < model.columns.len() implies (#[trigger] added.columns[i]).name
                == model.columns[i].name && added.columns[i].nullable == model.columns[i].nullable by {
                assert(draft.model.columns[i].name == model.columns[i].name);
            }
            assert forall|i: int| 0 <= i < model.names.len() implies #[trigger] added.names[i]
                == model.names[i] by {
                assert(draft.model.names[i] == model.names[i]);
            }
        }
    }
}

/// Whether the table holds `column` as it is: in its own column, or it holds only nulls.
pub open spec fn already_fits(model: ModelView, column: ArrivingView) -> bool {
    match model.column(KeyView::Source(column.path)) {
        Some(original) => column.logical == TypeView::Null || column.joins[original]
            == model.columns[original].logical,
        None => column.logical == TypeView::Null,
    }
}

/// A batch that fits its table changes nothing, whatever the policies.
pub proof fn law_fitting_batches_change_nothing(
    capabilities: &Capabilities,
    model: ModelView,
    columns: Seq<ArrivingView>,
    n: int,
)
    requires
        0 <= n <= columns.len(),
        forall|i: int| 0 <= i < columns.len() ==> already_fits(model, #[trigger] columns[i]),
    ensures
        routed_all(capabilities, model, columns, n) matches Ok((_, draft)) && draft == (DraftView {
            model,
            adds: Seq::empty(),
            changes: Seq::empty(),
        }),
    decreases n,
{
    if n > 0 {
        law_fitting_batches_change_nothing(capabilities, model, columns, n - 1);
        let column = columns[n - 1];
        let draft = DraftView { model, adds: Seq::empty(), changes: Seq::empty() };
        assert(already_fits(model, column));
        let key = KeyView::Source(column.path);
        lemma_column_is_one(model, key);
        if let Some(original) = model.column(key) {
            if column.logical != TypeView::Null {
                let all = candidates(model, column.path, original);
                assert(all[0] == original);
                assert((column.fits(draft))(original));
                lemma_first_is(all, column.fits(draft), 0);
            }
        }
    }
}

/// The table of a batch whose columns' policies freeze or discard is not changed by it, once it
/// is created: it takes what it holds, and refuses or drops the rest.
pub proof fn law_only_evolving_columns_change_a_table(
    capabilities: &Capabilities,
    model: ModelView,
    columns: Seq<ArrivingView>,
    n: int,
)
    requires
        0 <= n <= columns.len(),
        model.created(),
        forall|i: int|
            0 <= i < columns.len() ==> !(#[trigger] columns[i]).is_key && columns[i].policy
                != SchemaPolicy::Evolve,
    ensures
        routed_all(capabilities, model, columns, n) matches Ok((_, draft)) ==> draft == (DraftView {
            model,
            adds: Seq::empty(),
            changes: Seq::empty(),
        }),
    decreases n,
{
    if n > 0 {
        law_only_evolving_columns_change_a_table(capabilities, model, columns, n - 1);
        assert(!columns[n - 1].is_key);
    }
}

/// A merge key's column, once the table has it, takes no variant: its values go to a column that
/// holds them, it widens in place, or the batch is refused.
pub proof fn law_key_columns_take_no_variants(
    capabilities: &Capabilities,
    draft: DraftView,
    column: ArrivingView,
    created: bool,
)
    requires
        column.is_key,
        draft.model.column(KeyView::Source(column.path)) is Some,
    ensures
        routed(capabilities, draft, column, created) matches Ok((_, next)) ==> next.adds
            == draft.adds,
{
}

/// A hinted column keeps its type.
pub proof fn law_hinted_columns_never_widen(
    capabilities: &Capabilities,
    draft: DraftView,
    column: ArrivingView,
    created: bool,
    original: int,
)
    requires
        column.hint is Some,
        draft.model.column(KeyView::Source(column.path)) == Some(original),
        forall|kind: TypeKind| #[trigger]
            draft.model.column(KeyView::Variant { column: column.path, kind }) != Some(original),
    ensures
        routed(capabilities, draft, column, created) matches Ok((_, next))
            ==> next.model.columns[original] == draft.model.columns[original],
{
    let joined = column.join(draft, original);
    let key = KeyView::Variant { column: column.path, kind: joined.kind() };
    lemma_column_is_one(draft.model, key);
    lemma_column_is_one(draft.model, KeyView::Source(column.path));
    assert(draft.model.column(key) != Some(original));
}

/// The column whose settings apply to `column`: in a child table the `owner` whose arrays the table
/// holds, else the stream's column it is, or was flattened from.
pub open spec fn settings_owner(owner: Option<Seq<Seq<char>>>, column: Seq<Seq<char>>) -> Seq<
    Seq<char>,
> {
    match owner {
        Some(owner) => owner,
        None => if column.len() > 0 {
            seq![column[0]]
        } else {
            column
        },
    }
}

/// The column whose settings apply to `column`.
pub fn settings_column(owner: Option<&ColumnPath>, column: &ColumnPath) -> (settings: ColumnPath)
    ensures
        settings@ == settings_owner(
            match owner {
                Some(owner) => Some(owner@),
                None => None,
            },
            column@,
        ),
{
    if let Some(owner) = owner {
        return owner.clone();
    }
    if column.segments.len() == 0 {
        return column.clone();
    }
    let mut segments: Vec<String> = Vec::new();
    segments.push(column.segments[0].clone());
    let top = ColumnPath { segments };
    assert(top@ =~= seq![column@[0]]);
    top
}

/// The settings of a column are those of the array its child table holds, whatever the column is,
/// and else those of the stream's own column that the path begins with.
pub proof fn law_settings_are_of_the_streams_column(
    owner: Option<Seq<Seq<char>>>,
    column: Seq<Seq<char>>,
)
    ensures
        owner matches Some(array) ==> settings_owner(owner, column) == array,
        owner is None && column.len() > 0 ==> settings_owner(owner, column).len() == 1
            && settings_owner(owner, column)[0] == column[0],
        owner is None ==> settings_owner(owner, settings_owner(owner, column)) == settings_owner(
            owner,
            column,
        ),
{
}

} // verus!
