//! A table as the engine models it: its columns by identifier with their logical types, and the
//! source column each one holds.

use crate::error::ErrorKind;
use crate::search::{first_where, lemma_first_is, lemma_first_is_none, lemma_first_where};
use crate::table::types::{
    clone_fields, field_views, lemma_field_views, Field, FieldView, TypeKind,
};
use vstd::prelude::*;
use vstd::string::*;

verus! {

/// The texts of names.
pub open spec fn texts(names: Seq<String>) -> Seq<Seq<char>> {
    Seq::new(names.len(), |i: int| names[i]@)
}

/// Whether two lists of names are the same.
pub fn same_texts(a: &Vec<String>, b: &Vec<String>) -> (same: bool)
    ensures
        same == (texts(a@) == texts(b@)),
{
    if a.len() != b.len() {
        assert(texts(a@).len() != texts(b@).len());
        return false;
    }
    let mut at: usize = 0;
    while at < a.len()
        invariant
            at <= a@.len() == b@.len(),
            forall|i: int| 0 <= i < at ==> a@[i]@ == b@[i]@,
        decreases a@.len() - at,
    {
        if a[at] != b[at] {
            assert(texts(a@)[at as int] != texts(b@)[at as int]);
            return false;
        }
        at = at + 1;
    }
    assert(texts(a@) =~= texts(b@));
    true
}

/// A copy of a list of names.
pub fn clone_texts(names: &Vec<String>) -> (copy: Vec<String>)
    ensures
        texts(copy@) == texts(names@),
{
    let mut copy: Vec<String> = Vec::new();
    let mut at: usize = 0;
    while at < names.len()
        invariant
            at <= names@.len(),
            copy@.len() == at,
            forall|i: int| 0 <= i < at ==> (#[trigger] copy@[i])@ == names@[i]@,
        decreases names@.len() - at,
    {
        copy.push(names[at].clone());
        at = at + 1;
    }
    assert(texts(copy@) =~= texts(names@));
    copy
}

/// A source column: its name, within the names of the columns that hold it.
#[derive(Debug)]
pub struct ColumnPath {
    pub segments: Vec<String>,
}

impl ColumnPath {
    /// The names of the path.
    pub open spec fn view(&self) -> Seq<Seq<char>> {
        texts(self.segments@)
    }

    /// Whether two paths are the same.
    pub fn same(&self, other: &ColumnPath) -> (same: bool)
        ensures
            same == (self@ == other@),
    {
        same_texts(&self.segments, &other.segments)
    }
}

impl Clone for ColumnPath {
    fn clone(&self) -> (copy: ColumnPath)
        ensures
            copy@ == self@,
    {
        ColumnPath { segments: clone_texts(&self.segments) }
    }
}

/// What a table's column holds.
#[derive(Debug)]
pub enum ColumnKey {
    /// The values of a source column.
    Source(ColumnPath),
    /// Those values of a source column that its own column cannot hold, of one kind.
    Variant { column: ColumnPath, kind: TypeKind },
}

/// A column's key as a mathematical value.
pub ghost enum KeyView {
    Source(Seq<Seq<char>>),
    Variant { column: Seq<Seq<char>>, kind: TypeKind },
}

impl ColumnKey {
    /// The key as a mathematical value.
    pub open spec fn view(&self) -> KeyView {
        match *self {
            ColumnKey::Source(path) => KeyView::Source(path@),
            ColumnKey::Variant { column, kind } => KeyView::Variant { column: column@, kind },
        }
    }

    /// Whether two keys are the same.
    pub fn same(&self, other: &ColumnKey) -> (same: bool)
        ensures
            same == (self@ == other@),
    {
        match (self, other) {
            (ColumnKey::Source(a), ColumnKey::Source(b)) => a.same(b),
            (
                ColumnKey::Variant { column: a, kind: one },
                ColumnKey::Variant { column: b, kind: other },
            ) => *one == *other && a.same(b),
            _ => false,
        }
    }
}

impl Clone for ColumnKey {
    fn clone(&self) -> (copy: ColumnKey)
        ensures
            copy@ == self@,
    {
        match self {
            ColumnKey::Source(path) => ColumnKey::Source(path.clone()),
            ColumnKey::Variant { column, kind } => ColumnKey::Variant {
                column: column.clone(),
                kind: *kind,
            },
        }
    }
}

/// The identifiers of a table's columns, by what they hold.
#[derive(Debug)]
pub struct NameMap {
    pub entries: Vec<(ColumnKey, String)>,
}

/// Picks the entry of `key`.
pub open spec fn has_key(key: KeyView) -> spec_fn((KeyView, Seq<char>)) -> bool {
    |entry: (KeyView, Seq<char>)| entry.0 == key
}

/// Picks the fields of the identifier `name`.
pub open spec fn has_name(name: Seq<char>) -> spec_fn(FieldView) -> bool {
    |field: FieldView| field.name == name
}

/// Picks the fields whose identifier no source column has.
pub open spec fn is_orphan(names: Seq<(KeyView, Seq<char>)>) -> spec_fn(FieldView) -> bool {
    |field: FieldView| !is_owned(names, field.name)
}

/// The identifier of what `key` holds.
pub open spec fn name_in(names: Seq<(KeyView, Seq<char>)>, key: KeyView) -> Option<Seq<char>> {
    match first_where(names, has_key(key)) {
        Some(at) => Some(names[at].1),
        None => None,
    }
}

/// Whether an identifier is that of some column.
pub open spec fn is_owned(names: Seq<(KeyView, Seq<char>)>, name: Seq<char>) -> bool {
    exists|i: int| 0 <= i < names.len() && (#[trigger] names[i]).1 == name
}

impl NameMap {
    /// The identifiers as mathematical values.
    pub open spec fn view(&self) -> Seq<(KeyView, Seq<char>)> {
        Seq::new(self.entries@.len(), |i: int| (self.entries@[i].0@, self.entries@[i].1@))
    }

    /// The identifier of what `key` holds.
    pub fn get(&self, key: &ColumnKey) -> (name: Option<&String>)
        ensures
            match name {
                Some(name) => name_in(self@, key@) == Some(name@),
                None => name_in(self@, key@) is None,
            },
    {
        let ghost wanted = has_key(key@);
        let mut at: usize = 0;
        while at < self.entries.len()
            invariant
                at <= self.entries@.len(),
                wanted == has_key(key@),
                forall|i: int| 0 <= i < at ==> !wanted(#[trigger] self@[i]),
            decreases self.entries@.len() - at,
        {
            if self.entries[at].0.same(key) {
                proof {
                    assert(wanted(self@[at as int]));
                    lemma_first_is(self@, wanted, at as int);
                }
                return Some(&self.entries[at].1);
            }
            at = at + 1;
        }
        proof {
            lemma_first_is_none(self@, wanted);
        }
        None
    }

    /// Whether `name` is the identifier of some column.
    pub fn owns(&self, name: &String) -> (owned: bool)
        ensures
            owned == is_owned(self@, name@),
    {
        let mut at: usize = 0;
        while at < self.entries.len()
            invariant
                at <= self.entries@.len(),
                forall|i: int| 0 <= i < at ==> (#[trigger] self@[i]).1 != name@,
            decreases self.entries@.len() - at,
        {
            if self.entries[at].1 == *name {
                assert(self@[at as int].1 == name@);
                return true;
            }
            at = at + 1;
        }
        false
    }
}

impl Clone for NameMap {
    fn clone(&self) -> (copy: NameMap)
        ensures
            copy@ == self@,
    {
        let mut entries: Vec<(ColumnKey, String)> = Vec::new();
        let mut at: usize = 0;
        while at < self.entries.len()
            invariant
                at <= self.entries@.len(),
                entries@.len() == at,
                forall|i: int|
                    0 <= i < at ==> (#[trigger] entries@[i]).0@ == self.entries@[i].0@
                        && entries@[i].1@ == self.entries@[i].1@,
            decreases self.entries@.len() - at,
        {
            entries.push((self.entries[at].0.clone(), self.entries[at].1.clone()));
            at = at + 1;
        }
        let copy = NameMap { entries };
        assert(copy@ =~= self@);
        copy
    }
}

/// A table's columns and names; version 0 is a table not created yet.
#[derive(Debug)]
pub struct Model {
    pub version: u32,
    /// The columns in order, metadata columns aside: identifiers, logical types and nullability.
    pub columns: Vec<Field>,
    pub names: NameMap,
}

/// A model as a mathematical value.
#[verifier::ext_equal]
pub ghost struct ModelView {
    pub version: u32,
    pub columns: Seq<FieldView>,
    pub names: Seq<(KeyView, Seq<char>)>,
}

impl ModelView {
    /// Whether the destination has the table.
    pub open spec fn created(self) -> bool {
        self.version > 0
    }

    /// Where the column of the identifier `name` stands.
    pub open spec fn named(self, name: Seq<char>) -> Option<int> {
        first_where(self.columns, has_name(name))
    }

    /// Where the column holding `key` stands.
    pub open spec fn column(self, key: KeyView) -> Option<int> {
        match name_in(self.names, key) {
            Some(name) => self.named(name),
            None => None,
        }
    }
}

/// A table as committed state records it.
#[derive(Debug)]
pub struct TableState {
    /// The version and columns of its schema.
    pub schema: Option<(u32, Vec<Field>)>,
    pub names: NameMap,
}

/// State that names no source column for a table's column.
#[derive(Debug)]
pub struct Orphan {
    pub column: String,
}

impl Orphan {
    /// Which part of a run the fault comes from: the destination, whose committed state it is of.
    pub fn kind(&self) -> (kind: ErrorKind)
        ensures
            kind == ErrorKind::Destination,
    {
        ErrorKind::Destination
    }

    /// The fault's code.
    pub fn code(&self) -> (code: &'static str)
        ensures
            code@ == "state_invalid"@,
    {
        "state_invalid"
    }

    /// The fault as text.
    pub fn message(&self) -> (text: String)
        ensures
            text@ == "state names no source column for column "@ + self.column@,
    {
        let mut text = String::new();
        text.append("state names no source column for column ");
        text.append(self.column.as_str());
        assert(text@ =~= "state names no source column for column "@ + self.column@);
        text
    }
}

/// The model of a table not created yet.
pub open spec fn empty_model(names: Seq<(KeyView, Seq<char>)>) -> ModelView {
    ModelView { version: 0, columns: Seq::empty(), names }
}

/// The model `state` records, or the identifier of its first column that no source column has.
pub open spec fn recorded_model(state: Option<TableState>) -> Result<ModelView, Seq<char>> {
    match state {
        None => Ok(empty_model(Seq::empty())),
        Some(state) => match state.schema {
            None => Ok(empty_model(state.names@)),
            Some((version, columns)) => {
                let fields = field_views(columns@);
                match first_where(fields, is_orphan(state.names@)) {
                    Some(orphan) => Err(fields[orphan].name),
                    None => Ok(ModelView { version, columns: fields, names: state.names@ }),
                }
            },
        },
    }
}

impl Model {
    /// The model as a mathematical value.
    pub open spec fn view(&self) -> ModelView {
        ModelView {
            version: self.version,
            columns: field_views(self.columns@),
            names: self.names@,
        }
    }

    /// The model of a table nothing is recorded of.
    pub fn new() -> (model: Model)
        ensures
            model@ == empty_model(Seq::empty()),
    {
        let model = Model {
            version: 0,
            columns: Vec::new(),
            names: NameMap { entries: Vec::new() },
        };
        assert(model@ =~= empty_model(Seq::empty()));
        model
    }

    /// The committed model of a table, or an empty one when nothing is committed. A column that
    /// no source column has is refused.
    pub fn from_state(state: Option<TableState>) -> (model: Result<Model, Orphan>)
        ensures
            match model {
                Ok(model) => recorded_model(state) == Ok::<ModelView, Seq<char>>(model@),
                Err(orphan) => recorded_model(state) == Err::<ModelView, Seq<char>>(orphan.column@),
            },
    {
        let recorded: TableState = match state {
            None => return Ok(Model::new()),
            Some(recorded) => recorded,
        };
        let names: NameMap = recorded.names;
        let (version, columns): (u32, Vec<Field>) = match recorded.schema {
            None => {
                let model = Model { version: 0, columns: Vec::new(), names };
                assert(model@ =~= empty_model(names@));
                return Ok(model);
            },
            Some(schema) => schema,
        };
        let ghost fields = field_views(columns@);
        let ghost orphaned = is_orphan(names@);
        proof {
            lemma_field_views(columns@);
        }
        let mut at: usize = 0;
        while at < columns.len()
            invariant
                at <= columns@.len(),
                fields == field_views(columns@),
                fields.len() == columns@.len(),
                forall|i: int| 0 <= i < columns@.len() ==> #[trigger] fields[i] == columns@[i]@,
                orphaned == is_orphan(names@),
                state == Some(TableState { schema: Some((version, columns)), names }),
                forall|i: int| 0 <= i < at ==> !orphaned(#[trigger] fields[i]),
            decreases columns@.len() - at,
        {
            proof {
                assert(fields[at as int] == columns@[at as int]@);
            }
            if !names.owns(&columns[at].name) {
                proof {
                    lemma_first_is(fields, orphaned, at as int);
                }
                return Err(Orphan { column: columns[at].name.clone() });
            }
            at = at + 1;
        }
        proof {
            lemma_first_is_none(fields, orphaned);
        }
        Ok(Model { version, columns, names })
    }

    /// Whether the destination has the table.
    pub fn created(&self) -> (created: bool)
        ensures
            created == self@.created(),
    {
        self.version > 0
    }

    /// Where the column holding `key` stands.
    pub fn column(&self, key: &ColumnKey) -> (column: Option<usize>)
        ensures
            match column {
                Some(column) => self@.column(key@) == Some(column as int) && column
                    < self.columns@.len(),
                None => self@.column(key@) is None,
            },
    {
        let name: &String = match self.names.get(key) {
            Some(name) => name,
            None => return None,
        };
        let ghost fields = field_views(self.columns@);
        let ghost wanted = has_name(name@);
        proof {
            lemma_field_views(self.columns@);
        }
        let mut at: usize = 0;
        while at < self.columns.len()
            invariant
                at <= self.columns@.len(),
                fields == field_views(self.columns@),
                fields.len() == self.columns@.len(),
                forall|i: int|
                    0 <= i < self.columns@.len() ==> #[trigger] fields[i] == self.columns@[i]@,
                wanted == has_name(name@),
                name_in(self.names@, key@) == Some(name@),
                forall|i: int| 0 <= i < at ==> !wanted(#[trigger] fields[i]),
            decreases self.columns@.len() - at,
        {
            proof {
                assert(fields[at as int] == self.columns@[at as int]@);
            }
            if self.columns[at].name == *name {
                proof {
                    lemma_first_is(fields, wanted, at as int);
                }
                return Some(at);
            }
            at = at + 1;
        }
        proof {
            lemma_first_is_none(fields, wanted);
        }
        None
    }
}

impl Clone for Model {
    fn clone(&self) -> (copy: Model)
        ensures
            copy@ == self@,
    {
        Model {
            version: self.version,
            columns: clone_fields(&self.columns),
            names: self.names.clone(),
        }
    }
}

/// A recorded table's model is what state records: its version, columns and names, where every
/// column has a source column, and none where one has not, which is the first such.
pub proof fn law_models_are_what_state_records(state: TableState)
    ensures
        state.schema matches Some((version, columns)) ==> match recorded_model(Some(state)) {
            Ok(model) => {
                &&& model.version == version
                &&& model.columns == field_views(columns@)
                &&& model.names == state.names@
                &&& forall|i: int|
                    0 <= i < model.columns.len() ==> exists|k: int|
                        0 <= k < model.names.len() && (#[trigger] model.names[k]).1 == (
                        #[trigger] model.columns[i]).name
            },
            Err(orphan) => exists|i: int|
                {
                    &&& 0 <= i < columns@.len()
                    &&& (#[trigger] columns@[i]).name@ == orphan
                    &&& forall|k: int|
                        0 <= k < state.names@.len() ==> (#[trigger] state.names@[k]).1 != orphan
                },
        },
        state.schema is None ==> recorded_model(Some(state)) == Ok::<ModelView, Seq<char>>(
            (ModelView { version: 0, columns: Seq::empty(), names: state.names@ }),
        ),
{
    if let Some((_, columns)) = state.schema {
        let fields = field_views(columns@);
        let names = state.names@;
        lemma_field_views(columns@);
        lemma_first_where(fields, is_orphan(names));
        match first_where(fields, is_orphan(names)) {
            Some(at) => {
                assert(fields[at] == columns@[at]@);
                assert((is_orphan(names))(fields[at]));
                assert forall|k: int| 0 <= k < names.len() implies (#[trigger] names[k]).1
                    != fields[at].name by {
                    assert(!is_owned(names, fields[at].name));
                }
                assert(columns@[at].name@ == fields[at].name);
            },
            None => {
                let model = recorded_model(Some(state))->Ok_0;
                assert forall|i: int| 0 <= i < model.columns.len() implies exists|k: int|
                    0 <= k < model.names.len() && (#[trigger] model.names[k]).1 == (
                    #[trigger] model.columns[i]).name by {
                    assert(!(is_orphan(names))(fields[i]));
                    assert(is_owned(names, fields[i].name));
                    let k = choose|k: int|
                        0 <= k < names.len() && (#[trigger] names[k]).1 == fields[i].name;
                    assert(model.names[k].1 == model.columns[i].name);
                }
            },
        }
    }
}

/// A key's column is the first of the name recorded for the key, the key's first; a key without a
/// name, or whose name no column has, has none.
pub proof fn law_columns_are_found_by_their_keys(model: ModelView, key: KeyView)
    ensures
        match model.column(key) {
            Some(at) => {
                &&& 0 <= at < model.columns.len()
                &&& exists|k: int|
                    {
                        &&& 0 <= k < model.names.len()
                        &&& (#[trigger] model.names[k]).0 == key
                        &&& model.names[k].1 == model.columns[at].name
                        &&& forall|j: int| 0 <= j < k ==> (#[trigger] model.names[j]).0 != key
                    }
                &&& forall|i: int|
                    0 <= i < at ==> (#[trigger] model.columns[i]).name != model.columns[at].name
            },
            None => {
                ||| forall|k: int| 0 <= k < model.names.len() ==> (#[trigger] model.names[k]).0 != key
                ||| exists|k: int|
                    {
                        &&& 0 <= k < model.names.len()
                        &&& (#[trigger] model.names[k]).0 == key
                        &&& forall|i: int|
                            0 <= i < model.columns.len() ==> (#[trigger] model.columns[i]).name
                                != model.names[k].1
                    }
            },
        },
{
    lemma_first_where(model.names, has_key(key));
    match first_where(model.names, has_key(key)) {
        Some(k) => {
            let name = model.names[k].1;
            lemma_first_where(model.columns, has_name(name));
            assert((has_key(key))(model.names[k]));
            assert forall|j: int| 0 <= j < k implies (#[trigger] model.names[j]).0 != key by {
                assert(!(has_key(key))(model.names[j]));
            }
            match model.named(name) {
                Some(at) => {
                    assert((has_name(name))(model.columns[at]));
                    assert forall|i: int| 0 <= i < at implies (#[trigger] model.columns[i]).name
                        != name by {
                        assert(!(has_name(name))(model.columns[i]));
                    }
                },
                None => {
                    assert forall|i: int| 0 <= i < model.columns.len() implies (
                    #[trigger] model.columns[i]).name != name by {
                        assert(!(has_name(name))(model.columns[i]));
                    }
                },
            }
        },
        None => {
            assert forall|k: int| 0 <= k < model.names.len() implies (
            #[trigger] model.names[k]).0 != key by {
                assert(!(has_key(key))(model.names[k]));
            }
        },
    }
}

} // verus!
