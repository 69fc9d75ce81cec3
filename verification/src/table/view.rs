//! A table as batches are prepared for it: its model, how the destination stores its columns, and
//! its merge key.

use crate::search::{is_pick, lemma_pick_next};
use crate::table::lower::{
    lower, lowered, physical, physical_fields, Capabilities, MetaNames, Nested,
};
use crate::table::model::{
    clone_texts, texts, ColumnKey, ColumnPath, KeyView, Model, ModelView,
};
use crate::table::types::{field_views, lemma_field_views, Field, FieldView, LogicalType};
use vstd::prelude::*;
use vstd::string::*;

verus! {

/// The table whose merges replace a child table's rows.
#[derive(Debug)]
pub struct RootKey {
    /// The table's identifier.
    pub table: String,
    /// The identifier of its rows' id.
    pub id: String,
    /// The identifier of its rows' sequence.
    pub seq: String,
}

impl RootKey {
    /// The identifiers of the table, its id and its sequence.
    pub open spec fn view(&self) -> (Seq<char>, Seq<char>, Seq<char>) {
        (self.table@, self.id@, self.seq@)
    }
}

impl Clone for RootKey {
    fn clone(&self) -> (copy: RootKey)
        ensures
            copy@ == self@,
    {
        RootKey { table: self.table.clone(), id: self.id.clone(), seq: self.seq.clone() }
    }
}

/// How a table's rows are merged.
#[derive(Debug)]
pub struct MergeKey {
    /// The identifiers of the key's columns.
    pub columns: Vec<String>,
    /// The identifier of the sequence column.
    pub seq: String,
    /// For a child table, the table it follows.
    pub root: Option<RootKey>,
}

/// A merge key as a mathematical value.
pub ghost struct MergeView {
    pub columns: Seq<Seq<char>>,
    pub seq: Seq<char>,
    pub root: Option<(Seq<char>, Seq<char>, Seq<char>)>,
}

/// A root's identifiers, where there is one.
pub open spec fn root_view(root: Option<RootKey>) -> Option<(Seq<char>, Seq<char>, Seq<char>)> {
    match root {
        Some(root) => Some(root@),
        None => None,
    }
}

/// A copy of a root's identifiers, where there is one.
fn clone_root(root: &Option<RootKey>) -> (copy: Option<RootKey>)
    ensures
        root_view(copy) == root_view(*root),
{
    match root {
        Some(root) => Some(root.clone()),
        None => None,
    }
}

impl MergeKey {
    /// The key as a mathematical value.
    pub open spec fn view(&self) -> MergeView {
        MergeView { columns: texts(self.columns@), seq: self.seq@, root: root_view(self.root) }
    }
}

impl Clone for MergeKey {
    fn clone(&self) -> (copy: MergeKey)
        ensures
            copy@ == self@,
    {
        MergeKey {
            columns: clone_texts(&self.columns),
            seq: self.seq.clone(),
            root: clone_root(&self.root),
        }
    }
}

/// A merge key, where there is one.
pub open spec fn merge_view(merge: Option<MergeKey>) -> Option<MergeView> {
    match merge {
        Some(merge) => Some(merge@),
        None => None,
    }
}

/// What a destination is told of a table.
#[derive(Debug)]
pub struct TableRef {
    /// The names that lead to it.
    pub path: Vec<String>,
    /// Its identifier.
    pub name: String,
    pub version: u32,
    /// The hidden copy a replace stream writes.
    pub generation: Option<u64>,
    pub merge: Option<MergeKey>,
}

/// A table's reference as a mathematical value.
pub ghost struct RefView {
    pub path: Seq<Seq<char>>,
    pub name: Seq<char>,
    pub version: u32,
    pub generation: Option<u64>,
    pub merge: Option<MergeView>,
}

impl TableRef {
    /// The reference as a mathematical value.
    pub open spec fn view(&self) -> RefView {
        RefView {
            path: texts(self.path@),
            name: self.name@,
            version: self.version,
            generation: self.generation,
            merge: merge_view(self.merge),
        }
    }
}

impl Clone for TableRef {
    fn clone(&self) -> (copy: TableRef)
        ensures
            copy@ == self@,
    {
        TableRef {
            path: clone_texts(&self.path),
            name: self.name.clone(),
            version: self.version,
            generation: self.generation,
            merge: match &self.merge {
                Some(merge) => Some(merge.clone()),
                None => None,
            },
        }
    }
}

/// Where the columns of the first `n` of the key's `paths` stand; the table may lack some.
pub open spec fn key_positions(model: ModelView, paths: Seq<Seq<Seq<char>>>, n: int) -> Seq<int>
    decreases n,
{
    if n <= 0 {
        Seq::empty()
    } else {
        let before = key_positions(model, paths, n - 1);
        match model.column(KeyView::Source(paths[n - 1])) {
            Some(column) => before.push(column),
            None => before,
        }
    }
}

/// Paths as mathematical values.
pub open spec fn path_views(paths: Seq<ColumnPath>) -> Seq<Seq<Seq<char>>> {
    Seq::new(paths.len(), |i: int| paths[i]@)
}

/// The identifiers of the columns at `positions`.
pub open spec fn names_at(columns: Seq<FieldView>, positions: Seq<int>) -> Seq<Seq<char>> {
    Seq::new(positions.len(), |i: int| columns[positions[i]].name)
}

/// Positions as integers.
pub open spec fn as_ints(positions: Seq<usize>) -> Seq<int> {
    Seq::new(positions.len(), |i: int| positions[i] as int)
}

/// A table as batches are prepared for it.
#[derive(Debug)]
pub struct TableView {
    /// The table as the destination is told of it, at its model's version.
    pub table: TableRef,
    pub model: Model,
    /// How the destination stores each of the model's columns.
    pub lowered: Vec<LogicalType>,
    /// The columns the destination has: the model's, then the metadata columns.
    pub physical: Vec<Field>,
    /// Where the key's columns that the table has stand.
    pub key: Vec<usize>,
    /// How many columns the key has.
    pub key_len: usize,
    pub meta: MetaNames,
}

/// What a table's views are made of, besides its model.
#[derive(Debug)]
pub struct Shape {
    /// The merge key's columns; empty for streams that do not merge.
    pub key: Vec<ColumnPath>,
    /// How each of the model's columns stores nested values.
    pub nested: Vec<Nested>,
    /// For a child table of a merge stream, the stream's table.
    pub root: Option<RootKey>,
}

impl TableView {
    /// Whether the view is of `table` at `model`.
    pub open spec fn is_of(
        &self,
        table: RefView,
        model: ModelView,
        shape: &Shape,
        meta: &MetaNames,
        capabilities: &Capabilities,
    ) -> bool {
        let key = key_positions(model, path_views(shape.key@), shape.key@.len() as int);
        &&& self.model@ == model
        &&& self.lowered@.len() == model.columns.len()
        &&& forall|i: int|
            0 <= i < model.columns.len() ==> (#[trigger] self.lowered@[i])@ == lowered(
                model.columns[i].logical,
                shape.nested@[i],
                capabilities,
            )
        &&& field_views(self.physical@) == physical(
            model.columns,
            shape.nested@,
            meta,
            capabilities,
        )
        &&& as_ints(self.key@) == key
        &&& self.key_len == shape.key@.len()
        &&& self.meta == *meta
        &&& self.table@ == (RefView {
            version: model.version,
            merge: match meta.seq {
                Some(seq) => Some(
                    MergeView {
                        columns: names_at(model.columns, key),
                        seq: seq@,
                        root: root_view(shape.root),
                    },
                ),
                None => None,
            },
            ..table
        })
    }

    /// The view of `table` at `model`: its columns as the destination stores them, and the merge
    /// key where it has a sequence column.
    pub fn new(
        table: &TableRef,
        model: Model,
        shape: &Shape,
        meta: MetaNames,
        capabilities: &Capabilities,
    ) -> (view: TableView)
        requires
            shape.nested@.len() == model.columns@.len(),
        ensures
            view.is_of(table@, model@, shape, &meta, capabilities),
    {
        proof {
            lemma_field_views(model.columns@);
        }
        let lowered: Vec<LogicalType> = lowered_types(&model.columns, &shape.nested, capabilities);
        let physical: Vec<Field> = physical_fields(
            &model.columns,
            &shape.nested,
            &meta,
            capabilities,
        );
        let key: Vec<usize> = key_of(&model, &shape.key);
        let merge: Option<MergeKey> = match &meta.seq {
            None => None,
            Some(seq) => Some(
                MergeKey {
                    columns: column_names(&model.columns, &key),
                    seq: seq.clone(),
                    root: clone_root(&shape.root),
                },
            ),
        };
        let own = TableRef {
            path: clone_texts(&table.path),
            name: table.name.clone(),
            version: model.version,
            generation: table.generation,
            merge,
        };
        TableView {
            table: own,
            model,
            lowered,
            physical,
            key,
            key_len: shape.key.len(),
            meta,
        }
    }

    /// Whether batches keep only the last row of each key: in merge tables, child tables aside,
    /// which follow their root's merges.
    pub fn compacts(&self) -> (compacts: bool)
        ensures
            compacts == (self.table@.merge matches Some(merge) && merge.root is None),
    {
        match &self.table.merge {
            Some(merge) => merge.root.is_none(),
            None => false,
        }
    }
}

/// How the destination stores each of `columns`.
fn lowered_types(columns: &Vec<Field>, nested: &Vec<Nested>, capabilities: &Capabilities) -> (types:
    Vec<LogicalType>)
    requires
        nested@.len() == columns@.len(),
    ensures
        types@.len() == columns@.len(),
        field_views(columns@).len() == columns@.len(),
        forall|i: int|
            0 <= i < columns@.len() ==> (#[trigger] types@[i])@ == lowered(
                field_views(columns@)[i].logical,
                nested@[i],
                capabilities,
            ),
{
    let ghost views = field_views(columns@);
    proof {
        lemma_field_views(columns@);
    }
    let mut types: Vec<LogicalType> = Vec::new();
    let mut at: usize = 0;
    while at < columns.len()
        invariant
            at <= columns@.len() == nested@.len(),
            views == field_views(columns@),
            views.len() == columns@.len(),
            forall|i: int| 0 <= i < columns@.len() ==> #[trigger] views[i] == columns@[i]@,
            types@.len() == at,
            forall|i: int|
                0 <= i < at ==> (#[trigger] types@[i])@ == lowered(
                    views[i].logical,
                    nested@[i],
                    capabilities,
                ),
        decreases columns@.len() - at,
    {
        assert(views[at as int] == columns@[at as int]@);
        types.push(lower(&columns[at].logical, nested[at], capabilities));
        at = at + 1;
    }
    types
}

/// Where the key's columns that the table has stand.
fn key_of(model: &Model, paths: &Vec<ColumnPath>) -> (key: Vec<usize>)
    ensures
        as_ints(key@) == key_positions(model@, path_views(paths@), paths@.len() as int),
        forall|i: int| 0 <= i < key@.len() ==> #[trigger] key@[i] < model.columns@.len(),
        key@.len() <= paths@.len(),
{
    let ghost views = path_views(paths@);
    let mut key: Vec<usize> = Vec::new();
    let mut at: usize = 0;
    assert(as_ints(key@) =~= key_positions(model@, views, 0));
    while at < paths.len()
        invariant
            at <= paths@.len(),
            views == path_views(paths@),
            as_ints(key@) == key_positions(model@, views, at as int),
            forall|i: int| 0 <= i < key@.len() ==> #[trigger] key@[i] < model.columns@.len(),
            key@.len() <= at,
        decreases paths@.len() - at,
    {
        let ghost before = key@;
        assert(views[at as int] == paths@[at as int]@);
        let wanted = ColumnKey::Source(paths[at].clone());
        if let Some(column) = model.column(&wanted) {
            key.push(column);
            assert(as_ints(key@) =~= as_ints(before).push(column as int));
        }
        at = at + 1;
    }
    key
}

/// The identifiers of the columns at `positions`.
fn column_names(columns: &Vec<Field>, positions: &Vec<usize>) -> (names: Vec<String>)
    requires
        forall|i: int| 0 <= i < positions@.len() ==> #[trigger] positions@[i] < columns@.len(),
    ensures
        texts(names@) == names_at(field_views(columns@), as_ints(positions@)),
{
    proof {
        lemma_field_views(columns@);
    }
    let ghost views = field_views(columns@);
    let mut names: Vec<String> = Vec::new();
    let mut at: usize = 0;
    while at < positions.len()
        invariant
            at <= positions@.len(),
            views == field_views(columns@),
            forall|i: int| 0 <= i < columns@.len() ==> #[trigger] views[i] == columns@[i]@,
            forall|i: int| 0 <= i < positions@.len() ==> #[trigger] positions@[i] < columns@.len(),
            names@.len() == at,
            forall|i: int| 0 <= i < at ==> (#[trigger] names@[i])@ == views[positions@[i] as int].name,
        decreases positions@.len() - at,
    {
        assert(views[positions@[at as int] as int] == columns@[positions@[at as int] as int]@);
        names.push(columns[positions[at]].name.clone());
        at = at + 1;
    }
    assert(texts(names@) =~= names_at(views, as_ints(positions@)));
    names
}

/// Picks the key's columns that the table has.
pub open spec fn is_had(model: ModelView, paths: Seq<Seq<Seq<char>>>) -> spec_fn(int) -> bool {
    |i: int| model.column(KeyView::Source(paths[i])) is Some
}

/// A table's key is where its key's own columns stand, in the key's order, without those that the
/// table lacks.
pub proof fn law_keys_keep_their_order(
    model: ModelView,
    paths: Seq<Seq<Seq<char>>>,
    n: int,
) -> (at: Seq<int>)
    requires
        0 <= n <= paths.len(),
    ensures
        is_pick(at, n, is_had(model, paths)),
        key_positions(model, paths, n).len() == at.len(),
        forall|k: int|
            0 <= k < at.len() ==> model.column(KeyView::Source(paths[at[k]])) == Some(
                #[trigger] key_positions(model, paths, n)[k],
            ),
    decreases n,
{
    if n <= 0 {
        Seq::empty()
    } else {
        let before = law_keys_keep_their_order(model, paths, n - 1);
        let earlier = key_positions(model, paths, n - 1);
        let at = lemma_pick_next(before, n - 1, is_had(model, paths));
        assert forall|k: int| 0 <= k < at.len() implies model.column(
            KeyView::Source(paths[at[k]]),
        ) == Some(#[trigger] key_positions(model, paths, n)[k]) by {
            if k < before.len() {
                assert(key_positions(model, paths, n)[k] == earlier[k]);
            }
        }
        at
    }
}

} // verus!
