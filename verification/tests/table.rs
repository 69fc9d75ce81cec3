//! How tables take batches: the columns they gain, and the rows they store.

use std::collections::BTreeMap;
use std::sync::Arc;

use arrow_array::cast::AsArray;
use arrow_array::types::Int64Type;
use arrow_array::{
    Array, ArrayRef, Decimal128Array, Int16Array, Int32Array, Int64Array, LargeStringArray,
    ListArray, StringArray, TimestampSecondArray,
};
use arrow_cast::{cast_with_options, CastOptions};
use arrow_schema::{DataType, TimeUnit as ArrowUnit};
use rdlt_engine::error::ErrorKind;
use rdlt_engine::table::convert::{
    convert, field_named, render_bytes, stored_form, text_form, Conversion, Source as FieldSource,
    TextForm,
};
use rdlt_engine::table::encoding::{
    decoded_type, encode_items, extension, push_quoted, unmapped, wide_dates, writing, Extension,
    Layout, Part, Stored, Writing,
};
use rdlt_engine::table::lower::{
    lower, prepared_schema, wanted_columns, Capabilities, LineageColumns, MetaColumn, MetaNames,
    Nested,
};
use rdlt_engine::table::lowering::{
    lineage_columns, load_micros, unrepresentable, Batch, ColumnNulls, Constants, Contents, Fill,
    KeyFault, Lineage, LoweringPlan, MissingLineage, Prepared, Stamp,
};
use rdlt_engine::table::merge::{
    compact, kept_rows, last_rows, positions, sequence, sequence_bytes, KeyColumn,
};
use rdlt_engine::table::model::{ColumnKey, ColumnPath, Model, NameMap, TableState};
use rdlt_engine::table::rendering::text;
use rdlt_engine::table::resolve::{
    resolve_columns, settings_column, Arriving, Cause, Change, Hint, OnUnsupported, Refused,
    Resolution, Route, SchemaPolicy,
};
use rdlt_engine::table::temporal::{Temporal, TimeUnit};
use rdlt_engine::table::types::{Field, LogicalType, TypeKind};
use rdlt_engine::table::view::{RootKey, Shape, TableRef, TableView};

const KINDS: [TypeKind; 19] = [
    TypeKind::Null,
    TypeKind::Bool,
    TypeKind::Int8,
    TypeKind::Int16,
    TypeKind::Int32,
    TypeKind::Int64,
    TypeKind::Float32,
    TypeKind::Float64,
    TypeKind::Decimal,
    TypeKind::Utf8,
    TypeKind::Binary,
    TypeKind::Date,
    TypeKind::Time,
    TypeKind::Timestamp,
    TypeKind::Duration,
    TypeKind::Uuid,
    TypeKind::Json,
    TypeKind::Struct,
    TypeKind::List,
];

/// A destination storing the plain types, that applies every schema change.
fn capabilities() -> Capabilities {
    let lacking = [TypeKind::Uuid, TypeKind::Json, TypeKind::Struct, TypeKind::List];
    Capabilities {
        types: KINDS.into_iter().filter(|kind| !lacking.contains(kind)).collect(),
        structs: false,
        lists: false,
        json: false,
        add_column: true,
        widenings: KINDS
            .into_iter()
            .flat_map(|from| KINDS.into_iter().map(move |to| (from, to)))
            .collect(),
    }
}

fn without(mut capabilities: Capabilities, kinds: &[TypeKind]) -> Capabilities {
    capabilities.types.retain(|kind| !kinds.contains(kind));
    capabilities
}

fn with(mut capabilities: Capabilities, kinds: &[TypeKind]) -> Capabilities {
    capabilities.types.extend(kinds);
    capabilities
}

/// A destination storing JSON that widens no column.
fn fixed() -> Capabilities {
    let mut fixed = with(capabilities(), &[TypeKind::Json]);
    fixed.widenings.clear();
    fixed
}

fn path(name: &str) -> ColumnPath {
    ColumnPath { segments: vec![name.to_owned()] }
}

fn source(name: &str) -> ColumnKey {
    ColumnKey::Source(path(name))
}

fn field(name: &str, logical: LogicalType, nullable: bool) -> Field {
    Field { name: name.to_owned(), logical, nullable }
}

fn structure(fields: Vec<Field>) -> LogicalType {
    LogicalType::Struct(fields)
}

fn list(item: LogicalType) -> LogicalType {
    LogicalType::List(Box::new(field("item", item, true)))
}

fn decimal(precision: u8, scale: u8) -> LogicalType {
    LogicalType::Decimal(precision, scale)
}

fn digits(logical: &LogicalType) -> Option<u8> {
    match logical {
        LogicalType::Int8 => Some(3),
        LogicalType::Int16 => Some(5),
        LogicalType::Int32 => Some(10),
        LogicalType::Int64 => Some(19),
        _ => None,
    }
}

/// The narrowest type holding every value of both, which is JSON where none else does.
fn join(a: &LogicalType, b: &LogicalType) -> LogicalType {
    if a.same(b) {
        return a.clone();
    }
    match (a, b) {
        (LogicalType::Null, other) | (other, LogicalType::Null) => other.clone(),
        (LogicalType::Decimal(p, s), LogicalType::Decimal(q, t)) => {
            let scale = *s.max(t);
            decimal((p - s).max(q - t) + scale, scale)
        }
        (LogicalType::Decimal(p, s), other) | (other, LogicalType::Decimal(p, s)) => {
            match digits(other) {
                Some(whole) => decimal((p - s).max(whole) + s, *s),
                None => LogicalType::Json,
            }
        }
        (LogicalType::Timestamp(u, None), LogicalType::Timestamp(v, None)) => {
            LogicalType::Timestamp(finer(*u, *v), None)
        }
        _ => match (digits(a), digits(b)) {
            (Some(m), Some(n)) => if m < n { b.clone() } else { a.clone() },
            _ => LogicalType::Json,
        },
    }
}

fn finer(a: TimeUnit, b: TimeUnit) -> TimeUnit {
    let units =
        [TimeUnit::Nanosecond, TimeUnit::Microsecond, TimeUnit::Millisecond, TimeUnit::Second];
    units.into_iter().find(|unit| *unit == a || *unit == b).expect("a unit")
}

/// How one stream's columns are resolved.
struct Resolver {
    capabilities: Capabilities,
    policy: SchemaPolicy,
    on_unsupported: OnUnsupported,
    policies: Vec<(&'static str, SchemaPolicy)>,
    nested: Vec<(&'static str, Nested)>,
    hints: Vec<(&'static str, LogicalType)>,
    key: Vec<&'static str>,
    normalized: bool,
}

fn resolver(capabilities: Capabilities, key: &[&'static str]) -> Resolver {
    Resolver {
        capabilities,
        policy: SchemaPolicy::Evolve,
        on_unsupported: OnUnsupported::Variant,
        policies: Vec::new(),
        nested: Vec::new(),
        hints: Vec::new(),
        key: key.to_vec(),
        normalized: false,
    }
}

fn kind_text(kind: TypeKind) -> String {
    format!("{kind:?}").to_lowercase()
}

fn wanted_name(key: &ColumnKey) -> String {
    match key {
        ColumnKey::Source(path) => path.segments.join("__"),
        ColumnKey::Variant { column, kind } => {
            format!("{}__{}", column.segments.join("__"), kind_text(*kind))
        }
    }
}

impl Resolver {
    fn meta(&self) -> MetaNames {
        MetaNames {
            load_id: "_rdlt_load_id".to_owned(),
            loaded_at: "_rdlt_loaded_at".to_owned(),
            seq: if self.key.is_empty() { None } else { Some("_rdlt_seq".to_owned()) },
            id: None,
            parent: None,
        }
    }

    fn nested_of(&self, name: &str) -> Nested {
        self.nested.iter().find(|(n, _)| *n == name).map_or(Nested::Native, |(_, nested)| *nested)
    }

    fn arriving(&self, model: &Model, name: &str, logical: &LogicalType) -> Arriving {
        let hint = self.hints.iter().find(|(hinted, _)| *hinted == name);
        Arriving {
            path: path(name),
            logical: logical.clone(),
            policy: self
                .policies
                .iter()
                .find(|(n, _)| *n == name)
                .map_or(self.policy, |(_, policy)| *policy),
            on_unsupported: self.on_unsupported,
            nested: self.nested_of(name),
            is_key: self.key.contains(&name),
            hint: hint.map(|(_, hinted)| Hint {
                logical: hinted.clone(),
                joined: join(hinted, logical),
            }),
            joins: model.columns.iter().map(|column| join(&column.logical, logical)).collect(),
        }
    }

    /// The resolution of a batch, its added columns named in the order of their keys, and a name
    /// that differs from a taken one in case alone told apart by a number.
    fn resolve(
        &self,
        model: &Model,
        fields: &[(&str, LogicalType)],
    ) -> Result<Resolution, Refused> {
        let arriving: Vec<Arriving> =
            fields.iter().map(|(name, logical)| self.arriving(model, name, logical)).collect();
        let unnamed = resolve_columns(&self.capabilities, model, &arriving)?;
        let wanted: Vec<String> =
            unnamed.added().iter().map(|added| wanted_name(&added.key)).collect();
        let mut order: Vec<usize> = (0..wanted.len()).collect();
        order.sort_by(|a, b| wanted[*a].cmp(&wanted[*b]));
        let mut taken: Vec<String> =
            model.columns.iter().map(|column| column.name.to_lowercase()).collect();
        let mut names = vec![String::new(); wanted.len()];
        for at in order {
            let mut name = wanted[at].clone();
            let mut salt = 2;
            while taken.contains(&name.to_lowercase()) {
                name = format!("{}_{salt}", wanted[at]);
                salt += 1;
            }
            taken.push(name.to_lowercase());
            names[at] = name;
        }
        Ok(unnamed.finish(names, self.normalized))
    }

    /// The model once the table is created from `fields`.
    fn created(&self, fields: &[(&str, LogicalType)]) -> Model {
        self.resolve(&Model::new(), fields).expect("the table is created").model
    }

    fn view(&self, model: Model) -> TableView {
        let shape = Shape {
            key: self.key.iter().map(|name| path(name)).collect(),
            nested: model.columns.iter().map(|column| self.nested_of(&column.name)).collect(),
            root: None,
        };
        TableView::new(&table("t"), model, &shape, self.meta(), &self.capabilities)
    }
}

fn expect(resolution: Result<Resolution, Refused>) -> Resolution {
    resolution.unwrap_or_else(|refused| panic!("{refused:?}"))
}

fn assert_columns(model: &Model, expected: &[(&str, LogicalType)]) {
    assert_eq!(model.columns.len(), expected.len());
    for at in 0..expected.len() {
        assert_column(model, at, expected[at].0, &expected[at].1);
    }
}

fn assert_column(model: &Model, at: usize, name: &str, logical: &LogicalType) {
    assert_eq!(model.columns[at].name, name);
    assert!(model.columns[at].logical.same(logical), "{:?}", model.columns[at]);
}

fn same_model(a: &Model, b: &Model) -> bool {
    let entries = |model: &Model| model.names.entries.len();
    a.version == b.version
        && a.columns.len() == b.columns.len()
        && a.columns.iter().zip(&b.columns).all(|(x, y)| x.same(y))
        && entries(a) == entries(b)
        && a.names.entries.iter().all(|(key, name)| b.names.get(key) == Some(name))
}

#[test]
fn a_new_table_takes_every_column_of_its_first_batch() {
    let resolver = resolver(capabilities(), &[]);
    let first = [("Id", LogicalType::Int64), ("name", LogicalType::Utf8)];
    let resolution = expect(resolver.resolve(&Model::new(), &first));
    assert_eq!(resolution.routes, [Route::Column(0), Route::Column(1)]);
    assert_eq!(resolution.changes.len(), 2);
    assert_eq!(resolution.model.version, 1);
    assert_columns(
        &resolution.model,
        &[("Id", LogicalType::Int64), ("name", LogicalType::Utf8)],
    );
    assert_eq!(resolution.model.names.get(&source("Id")), Some(&"Id".to_owned()));
}

#[test]
fn a_batch_that_fits_its_table_changes_nothing() {
    let resolver = resolver(capabilities(), &[]);
    let model = resolver.created(&[("id", LogicalType::Int64), ("note", LogicalType::Utf8)]);
    let narrower = [("note", LogicalType::Null), ("id", LogicalType::Int32)];
    let resolution = expect(resolver.resolve(&model, &narrower));
    assert!(resolution.changes.is_empty());
    assert_eq!(resolution.routes, [Route::Column(1), Route::Column(0)]);
    assert!(same_model(&resolution.model, &model));
}

#[test]
fn new_columns_are_added_and_wider_types_widen_their_column() {
    let resolver = resolver(capabilities(), &[]);
    let model = resolver.created(&[("id", LogicalType::Int32)]);
    let wider = [("id", LogicalType::Int64), ("extra", LogicalType::Utf8)];
    let resolution = expect(resolver.resolve(&model, &wider));
    assert_eq!(resolution.routes, [Route::Column(0), Route::Column(1)]);
    assert_eq!(resolution.changes.len(), 2);
    assert!(matches!(
        &resolution.changes[0],
        Change::Widen { column: 0, from: LogicalType::Int32 }
    ));
    assert!(matches!(&resolution.changes[1], Change::Add { key } if key.same(&source("extra"))));
    assert_eq!(resolution.model.version, 2);
    assert_columns(
        &resolution.model,
        &[("id", LogicalType::Int64), ("extra", LogicalType::Utf8)],
    );
}

#[test]
fn changes_the_destination_cannot_apply_go_to_variant_columns() {
    let resolver = resolver(fixed(), &[]);
    let model = resolver.created(&[("amount", LogicalType::Int32)]);
    let wider = expect(resolver.resolve(&model, &[("amount", LogicalType::Int64)]));
    assert_eq!(wider.routes, [Route::Column(1)]);
    assert_column(&wider.model, 1, "amount__int64", &LogicalType::Int64);
    let text = expect(resolver.resolve(&wider.model, &[("amount", LogicalType::Utf8)]));
    assert_eq!(text.routes, [Route::Column(2)]);
    assert_column(&text.model, 2, "amount__json", &LogicalType::Json);
    let key = ColumnKey::Variant { column: path("amount"), kind: TypeKind::Json };
    assert_eq!(text.model.names.get(&key), Some(&"amount__json".to_owned()));
    let small = expect(resolver.resolve(&text.model, &[("amount", LogicalType::Int8)]));
    assert!(small.changes.is_empty(), "values the original holds stay in it");
    assert_eq!(small.routes, [Route::Column(0)]);
}

#[test]
fn incompatible_values_go_to_the_json_variant() {
    let resolver = resolver(capabilities(), &[]);
    let model = resolver.created(&[("amount", LogicalType::Int64)]);
    let resolution = expect(resolver.resolve(&model, &[("amount", LogicalType::Float64)]));
    assert_eq!(resolution.routes, [Route::Column(1)]);
    assert_column(&resolution.model, 1, "amount__json", &LogicalType::Json);
}

#[test]
fn policies_refuse_or_discard_changes() {
    let incoming = [("id", LogicalType::Utf8), ("extra", LogicalType::Int64)];
    let cases = [
        (SchemaPolicy::Freeze, OnUnsupported::Variant, Err("schema_frozen")),
        (
            SchemaPolicy::DiscardRow,
            OnUnsupported::Variant,
            Ok([Route::DiscardRows, Route::DiscardRows]),
        ),
        (
            SchemaPolicy::DiscardValue,
            OnUnsupported::Variant,
            Ok([Route::DiscardValues, Route::DiscardValues]),
        ),
        (SchemaPolicy::Evolve, OnUnsupported::Refuse, Err("schema_change_unsupported")),
    ];
    for (policy, on_unsupported, expected) in cases {
        let mut resolver = resolver(capabilities(), &[]);
        resolver.policy = policy;
        resolver.on_unsupported = on_unsupported;
        let model = resolver.created(&[("id", LogicalType::Int64)]);
        match (resolver.resolve(&model, &incoming), expected) {
            (Ok(resolution), Ok(routes)) => {
                assert_eq!(resolution.routes, routes);
                assert!(resolution.changes.is_empty());
            }
            (Err(refused), Err(code)) => {
                assert_eq!(refused.cause.kind(), ErrorKind::Schema);
                assert_eq!(refused.cause.code(), code);
            }
            (result, expected) => panic!("{policy:?}: {result:?}, expected {expected:?}"),
        }
    }
}

#[test]
fn a_frozen_table_still_takes_values_its_columns_hold() {
    let mut resolver = resolver(capabilities(), &[]);
    resolver.policy = SchemaPolicy::Freeze;
    let model = resolver.created(&[("id", LogicalType::Int64)]);
    let resolution = expect(resolver.resolve(&model, &[("id", LogicalType::Int16)]));
    assert_eq!(resolution.routes, [Route::Column(0)]);
}

#[test]
fn a_column_policy_overrides_the_stream_policy() {
    let mut resolver = resolver(capabilities(), &[]);
    resolver.policy = SchemaPolicy::Freeze;
    resolver.policies = vec![("loose", SchemaPolicy::Evolve)];
    let model = resolver.created(&[("id", LogicalType::Int64)]);
    let resolution = expect(resolver.resolve(&model, &[("loose", LogicalType::Utf8)]));
    assert_eq!(resolution.routes, [Route::Column(1)]);
}

#[test]
fn a_hint_pins_its_column_type() {
    let mut resolver = resolver(capabilities(), &[]);
    resolver.hints = vec![("amount", decimal(18, 2))];
    let model = resolver.created(&[("amount", LogicalType::Int32)]);
    assert_column(&model, 0, "amount", &decimal(18, 2));
    let wider = expect(resolver.resolve(&model, &[("amount", decimal(30, 2))]));
    assert_eq!(wider.routes, [Route::Column(1)], "a hinted column never widens");
    assert_column(&wider.model, 1, "amount__decimal", &decimal(30, 2));
}

#[test]
fn key_columns_never_take_variants() {
    let resolver = resolver(capabilities(), &["id"]);
    let model = resolver.created(&[("id", LogicalType::Int32)]);
    let widened = expect(resolver.resolve(&model, &[("id", LogicalType::Int64)]));
    assert_eq!(widened.routes, [Route::Column(0)]);
    let refused = resolver
        .resolve(&widened.model, &[("id", LogicalType::Utf8)])
        .expect_err("a key column takes no variant");
    assert_eq!(refused.cause.code(), "merge_key_changed");
    assert_eq!(refused.column, 0);
    assert!(!model.columns[0].nullable, "key columns hold no nulls");
}

#[test]
fn columns_of_only_nulls_create_nothing() {
    let resolver = resolver(capabilities(), &[]);
    let model = resolver.created(&[("id", LogicalType::Int64), ("unknown", LogicalType::Null)]);
    assert_eq!(model.columns.len(), 1);
    let resolution = expect(resolver.resolve(&model, &[("unknown", LogicalType::Null)]));
    assert_eq!(resolution.routes, [Route::Skip]);
    assert!(resolution.changes.is_empty());
}

#[test]
fn added_names_do_not_depend_on_column_order() {
    let resolver = resolver(capabilities(), &[]);
    let model = resolver.created(&[("id", LogicalType::Int64)]);
    let forward = [("A", LogicalType::Utf8), ("a", LogicalType::Utf8)];
    let backward = [("a", LogicalType::Utf8), ("A", LogicalType::Utf8)];
    let names = |resolution: Resolution| {
        let mut names: Vec<(String, String)> = resolution
            .model
            .names
            .entries
            .iter()
            .map(|(key, name)| (wanted_name(key), name.clone()))
            .collect();
        names.sort();
        names
    };
    assert_eq!(
        names(expect(resolver.resolve(&model, &forward))),
        names(expect(resolver.resolve(&model, &backward)))
    );
}

fn table(name: &str) -> TableRef {
    TableRef {
        path: vec![name.to_owned()],
        name: name.to_owned(),
        version: 1,
        generation: Some(3),
        merge: None,
    }
}

fn stamp() -> Stamp {
    Stamp { segment: 7, first_row: 10 }
}

/// A batch's columns, each with its name, its logical type and its values.
type Columns = Vec<(&'static str, LogicalType, ArrayRef)>;

fn nulls(columns: &Columns) -> Batch {
    Batch {
        rows: columns[0].2.len(),
        columns: columns
            .iter()
            .map(|(_, _, array)| {
                let logical = array.logical_nulls();
                ColumnNulls {
                    nulls: (0..array.len()).map(|row| array.is_null(row)).collect(),
                    logical: (0..array.len())
                        .map(|row| logical.as_ref().is_some_and(|nulls| nulls.is_null(row)))
                        .collect(),
                }
            })
            .collect(),
    }
}

fn types(columns: &Columns) -> Vec<LogicalType> {
    columns.iter().map(|(_, logical, _)| logical.clone()).collect()
}

/// Resolves and prepares a batch for `model`, as a partition does.
fn prepared(
    resolver: &Resolver,
    model: &Model,
    columns: &Columns,
) -> (TableView, Result<Prepared, KeyFault>) {
    let fields: Vec<(&str, LogicalType)> =
        columns.iter().map(|(name, logical, _)| (*name, logical.clone())).collect();
    let resolution = expect(resolver.resolve(model, &fields));
    let width = resolution.model.columns.len();
    let view = resolver.view(resolution.model);
    let plan = LoweringPlan::new(resolution.routes, width);
    let prepared = plan.prepare(&view, &types(columns), &nulls(columns), None, stamp());
    (view, prepared)
}

fn contents(prepared: Prepared) -> (usize, u64, Vec<Fill>, Option<Vec<Vec<u8>>>) {
    match prepared.contents {
        Contents::Rows { rows, discarded_values, fills, sequences, .. } => {
            (rows, discarded_values, fills, sequences)
        }
        Contents::Empty => panic!("the batch holds rows"),
    }
}

fn cast(array: &ArrayRef, to: &DataType) -> Result<ArrayRef, String> {
    let options = CastOptions { safe: false, ..CastOptions::default() };
    cast_with_options(array, to, &options).map_err(|error| error.to_string())
}

#[test]
fn prepared_batches_convert_exactly_lower_to_the_destination_and_carry_metadata() {
    let resolver = resolver(capabilities(), &[]);
    let model = resolver.created(&[("id", LogicalType::Int64), ("amount", decimal(10, 2))]);
    let ids: ArrayRef = Arc::new(Int32Array::from(vec![1, 2]));
    let amounts: ArrayRef = Arc::new(Int16Array::from(vec![Some(3), None]));
    let tags: ArrayRef = Arc::new(ListArray::from_iter_primitive::<Int64Type, _, _>([
        Some(vec![Some(1), Some(2)]),
        None,
    ]));
    let columns = vec![
        ("id", LogicalType::Int32, ids.clone()),
        ("amount", LogicalType::Int16, amounts.clone()),
        ("tags", list(LogicalType::Int64), tags),
    ];
    let (view, result) = prepared(&resolver, &model, &columns);
    let names: Vec<&str> = view.physical.iter().map(|field| field.name.as_str()).collect();
    assert_eq!(names, ["id", "amount", "tags", "_rdlt_load_id", "_rdlt_loaded_at"]);
    let prepared = result.unwrap_or_else(|fault| panic!("{fault:?}"));
    assert_eq!(prepared.discarded_rows, 0);
    assert!(prepared.kept.is_none());
    let (rows, discarded_values, fills, sequences) = contents(prepared);
    assert_eq!((rows, discarded_values), (2, 0));
    assert!(sequences.is_none());
    assert!(matches!(
        &fills[0],
        Fill::Stored { column: 0, how: Conversion::Cast, form: None }
    ));
    let cast_ids = cast(&ids, &DataType::Int64).expect("ids widen");
    assert_eq!(cast_ids.as_primitive::<Int64Type>().values(), &[1, 2]);
    assert!(matches!(
        &fills[1],
        Fill::Stored { column: 1, how: Conversion::Cast, form: None }
    ));
    assert!(view.lowered[1].same(&decimal(10, 2)));
    assert!(cast(&amounts, &DataType::Decimal128(10, 2)).is_ok());
    assert!(
        matches!(
            &fills[2],
            Fill::Stored { column: 2, how: Conversion::Normalize, form: Some(TextForm::Json) }
        ),
        "minimal destinations store lists as text"
    );
    let items = vec![Some(b"1".to_vec()), Some(b"2".to_vec())];
    assert_eq!(encode_items(&items), b"[1,2]");
    let described = prepared_schema(&view.physical, &vec![
        LogicalType::Int64,
        decimal(10, 2),
        list(LogicalType::Int64),
    ]);
    assert!(!described[0].dictionary && described[3].dictionary && described[4].dictionary);
    assert!(view.physical[3].logical.same(&LogicalType::Utf8));
    assert_eq!(render_bytes(&[5; 16], true).len(), 36, "UUIDs lower to hyphenated text");
    let instant = LogicalType::Timestamp(TimeUnit::Microsecond, Some("UTC".to_owned()));
    assert!(view.physical[4].logical.same(&instant));
    assert_eq!(load_micros(Some(1_000_000_000)), 1_000_000_000);
}

#[test]
fn types_the_destination_lacks_land_as_text() {
    let plain = without(capabilities(), &[TypeKind::Timestamp, TypeKind::Decimal]);
    let resolver = resolver(plain, &[]);
    let zone = Some("Europe/Warsaw".to_owned());
    let at = LogicalType::Timestamp(TimeUnit::Microsecond, zone.clone());
    let amounts =
        Decimal128Array::from(vec![1234]).with_precision_and_scale(10, 2).expect("decimals");
    let columns: Columns = vec![
        ("at", at, Arc::new(Int64Array::from(vec![1_500_000]))),
        ("amount", decimal(10, 2), Arc::new(amounts)),
    ];
    let (view, result) = prepared(&resolver, &Model::new(), &columns);
    let (_, _, fills, _) = contents(result.unwrap_or_else(|fault| panic!("{fault:?}")));
    for (at, fill) in fills.iter().enumerate() {
        assert!(view.lowered[at].same(&LogicalType::Utf8));
        assert!(matches!(
            fill,
            Fill::Stored { how: Conversion::Normalize, form: Some(TextForm::Rendered), .. }
        ));
    }
    let micros = Temporal::Timestamp(TimeUnit::Microsecond, true);
    let texts = text(&vec![Some(1_500_000)], micros, zone);
    assert_eq!(texts, Ok(vec![Some("1970-01-01T01:00:01.500+01:00".to_owned())]));
    let rendered = cast(&columns[1].2, &DataType::Utf8).expect("decimals render");
    assert_eq!(rendered.as_string::<i32>().value(0), "12.34");
    let started = load_micros(Some(1_000_000_000));
    let texts = text(&vec![Some(started)], micros, Some("UTC".to_owned())).expect("it renders");
    assert!(texts[0].as_ref().is_some_and(|text| text.starts_with("1970-01-01T00:16:40")));
}

#[test]
fn nested_values_stay_native_where_the_destination_stores_them() {
    let mut native =
        with(capabilities(), &[TypeKind::Struct, TypeKind::List, TypeKind::Uuid]);
    native.structs = true;
    native.lists = true;
    let object = structure(vec![field("n", LogicalType::Int64, true)]);
    let mut resolver = resolver(native, &[]);
    let model = resolver.created(&[("s", object.clone())]);
    let view = resolver.view(model.clone());
    assert!(matches!(view.lowered[0], LogicalType::Struct(_)));
    assert!(view.physical[1].logical.same(&LogicalType::Uuid));
    resolver.nested = vec![("s", Nested::Json)];
    let view = resolver.view(model);
    assert!(view.lowered[0].same(&LogicalType::Utf8));
    assert_eq!(stored_form(&object, &view.lowered[0]), Some(TextForm::Json));
}

#[test]
fn discarded_rows_and_values_are_counted() {
    let mut resolver = resolver(capabilities(), &[]);
    resolver.policy = SchemaPolicy::DiscardRow;
    resolver.policies = vec![("drop", SchemaPolicy::DiscardValue)];
    let model = resolver.created(&[("id", LogicalType::Int64)]);
    let columns: Columns = vec![
        ("id", LogicalType::Int64, Arc::new(Int64Array::from(vec![1, 2, 3]))),
        ("new", LogicalType::Utf8, Arc::new(StringArray::from(vec![None, Some("x"), None]))),
        (
            "drop",
            LogicalType::Int64,
            Arc::new(Int64Array::from(vec![Some(1), Some(2), None])),
        ),
    ];
    let (_, result) = prepared(&resolver, &model, &columns);
    let prepared = result.unwrap_or_else(|fault| panic!("{fault:?}"));
    assert_eq!(prepared.kept, Some(vec![true, false, true]), "the rows of ids 1 and 3");
    assert_eq!(prepared.discarded_rows, 1);
    let (rows, discarded_values, ..) = contents(prepared);
    assert_eq!(rows, 2);
    assert_eq!(discarded_values, 1, "the value in a dropped row is not counted");
}

#[test]
fn a_batch_whose_rows_are_all_discarded_prepares_empty() {
    let mut resolver = resolver(capabilities(), &[]);
    resolver.policy = SchemaPolicy::DiscardRow;
    let model = resolver.created(&[("id", LogicalType::Int64)]);
    let columns: Columns = vec![
        ("id", LogicalType::Int64, Arc::new(Int64Array::from(vec![1, 2]))),
        ("new", LogicalType::Utf8, Arc::new(StringArray::from(vec!["x", "y"]))),
    ];
    let (view, result) = prepared(&resolver, &model, &columns);
    let prepared = result.unwrap_or_else(|fault| panic!("{fault:?}"));
    assert!(matches!(prepared.contents, Contents::Empty));
    assert_eq!(view.physical.len(), 3, "id and the metadata columns");
    assert_eq!(prepared.discarded_rows, 2);
}

/// The rows a merge keeps of a batch whose key column is `keys`.
fn kept(keys: &[i64]) -> Vec<usize> {
    compact(&vec![KeyColumn::Numbers(keys.iter().map(|key| i128::from(*key)).collect())], keys.len())
        .expect("keys become bytes")
        .unwrap_or_else(|| (0..keys.len()).collect())
}

#[test]
fn merge_batches_keep_the_last_row_of_each_key_in_sequence_order() {
    let resolver = resolver(capabilities(), &["id"]);
    let model = resolver.created(&[("id", LogicalType::Int64), ("v", LogicalType::Utf8)]);
    let ids = [1, 2, 1];
    let columns: Columns = vec![
        ("id", LogicalType::Int64, Arc::new(Int64Array::from(ids.to_vec()))),
        ("v", LogicalType::Utf8, Arc::new(StringArray::from(vec!["a", "b", "c"]))),
    ];
    let (view, result) = prepared(&resolver, &model, &columns);
    assert!(view.compacts());
    let (_, _, _, sequences) = contents(result.unwrap_or_else(|fault| panic!("{fault:?}")));
    let sequences = sequences.expect("merged rows carry their sequence");
    let rows = kept(&ids);
    assert_eq!(rows, [1, 2], "ids 2 and 1, values b and c");
    let decode = |row: usize| {
        let bytes = &sequences[row];
        (
            u64::from_be_bytes(bytes[..8].try_into().expect("eight bytes")),
            u64::from_be_bytes(bytes[8..].try_into().expect("eight bytes")),
        )
    };
    assert_eq!([decode(rows[0]), decode(rows[1])], [(7, 11), (7, 12)]);
}

#[test]
fn merge_batches_without_a_whole_key_are_refused() {
    let resolver = resolver(capabilities(), &["id"]);
    let model = resolver.created(&[("id", LogicalType::Int64), ("v", LogicalType::Utf8)]);
    let cases: [(Columns, &str); 2] = [
        (
            vec![("v", LogicalType::Utf8, Arc::new(StringArray::from(vec!["a"])))],
            "merge_key_missing",
        ),
        (
            vec![(
                "id",
                LogicalType::Int64,
                Arc::new(Int64Array::from(vec![None, Some(1)])),
            )],
            "merge_key_null",
        ),
    ];
    for (columns, code) in cases {
        let (_, result) = prepared(&resolver, &model, &columns);
        let fault = result.expect_err("the key is not whole");
        assert_eq!((fault.kind(), fault.code()), (ErrorKind::Schema, code));
        assert!(fault.message("s", "id").contains("id"));
    }
}

#[test]
fn views_name_their_merge_key_and_version() {
    let resolver = resolver(capabilities(), &["id"]);
    let model = resolver.created(&[("v", LogicalType::Utf8), ("id", LogicalType::Int64)]);
    let view = resolver.view(model);
    let merge = view.table.merge.clone().expect("a merge key");
    assert_eq!(merge.columns, ["id"]);
    assert_eq!(merge.seq, "_rdlt_seq");
    assert_eq!(view.key, [1]);
    assert_eq!(view.table.version, 1);
    assert_eq!(view.table.generation, Some(3));
}

#[test]
fn structs_widen_field_by_field_and_json_embeds_its_text() {
    let from = structure(vec![field("a", LogicalType::Int32, true)]);
    let to = structure(vec![
        field("a", LogicalType::Int32, true),
        field("b", LogicalType::Utf8, true),
    ]);
    let Conversion::Struct(sources) = convert(&from, &to) else {
        panic!("structs convert field by field")
    };
    assert_eq!(sources.len(), 2);
    assert!(matches!(sources[0], FieldSource::Field(0, Conversion::Normalize)));
    assert!(matches!(sources[1], FieldSource::Nulls));
    assert_eq!(writing(Extension::Json, Stored::Text), Writing::Raw, "JSON text is embedded");
    assert_eq!(writing(Extension::Uuid, Stored::Bytes16), Writing::Uuid);
    assert_eq!(render_bytes(&[0; 16], true), "00000000-0000-0000-0000-000000000000");
    assert_eq!(writing(Extension::Other, Stored::Float), Writing::Float);
}

/// The rows a merge keeps, the slow way: the last row of each key, in row order.
fn fold(keys: &[i64]) -> Vec<i64> {
    let mut last: BTreeMap<i64, usize> = BTreeMap::new();
    for (row, key) in keys.iter().enumerate() {
        last.insert(*key, row);
    }
    let mut rows: Vec<usize> = last.into_values().collect();
    rows.sort_unstable();
    rows.into_iter().map(|row| keys[row]).collect()
}

#[test]
fn compaction_keeps_what_a_sort_and_fold_keeps() {
    let mut state: u64 = 7;
    for rows in 1..40 {
        let keys: Vec<i64> = (0..rows)
            .map(|_| {
                state = state.wrapping_mul(6_364_136_223_846_793_005).wrapping_add(1);
                i64::try_from((state >> 33) % 6).expect("a small key")
            })
            .collect();
        let kept: Vec<i64> = kept(&keys).into_iter().map(|row| keys[row]).collect();
        assert_eq!(kept, fold(&keys));
    }
}

#[test]
fn models_come_from_committed_state() {
    let none = Model::from_state(None).unwrap_or_else(|orphan| panic!("{}", orphan.message()));
    assert!(same_model(&none, &Model::new()));
    let resolver = resolver(capabilities(), &[]);
    let model = resolver.created(&[("id", LogicalType::Int64)]);
    let schema = || Some((model.version, model.columns.clone()));
    let state = TableState { schema: schema(), names: model.names.clone() };
    let read =
        Model::from_state(Some(state)).unwrap_or_else(|orphan| panic!("{}", orphan.message()));
    assert!(same_model(&read, &model));
    let named_only = TableState { schema: None, names: model.names.clone() };
    let unnamed =
        Model::from_state(Some(named_only)).unwrap_or_else(|orphan| panic!("{}", orphan.message()));
    assert!(!unnamed.created() && unnamed.columns.is_empty());
    assert_eq!(unnamed.names.get(&source("id")), Some(&"id".to_owned()));
    assert_eq!(unnamed.names.entries.len(), 1);
    let orphan = TableState { schema: schema(), names: NameMap { entries: Vec::new() } };
    let orphan = Model::from_state(Some(orphan)).expect_err("no name leads to the column");
    assert_eq!((orphan.kind(), orphan.code()), (ErrorKind::Destination, "state_invalid"));
    assert_eq!(orphan.column, "id");
}

#[test]
fn a_views_physical_schema_is_its_lowered_columns_then_metadata() {
    let resolver = resolver(capabilities(), &["id"]);
    let model = resolver.created(&[("id", LogicalType::Int64), ("tags", LogicalType::Json)]);
    let view = resolver.view(model);
    let instant = LogicalType::Timestamp(TimeUnit::Microsecond, Some("UTC".to_owned()));
    let expected = [
        ("id", LogicalType::Int64, false),
        ("tags", LogicalType::Utf8, true),
        ("_rdlt_load_id", LogicalType::Utf8, false),
        ("_rdlt_loaded_at", instant, false),
        ("_rdlt_seq", LogicalType::Binary, false),
    ];
    assert_eq!(view.physical.len(), expected.len());
    for (physical, (name, logical, nullable)) in view.physical.iter().zip(expected) {
        assert!(physical.same(&field(name, logical, nullable)), "{physical:?}");
    }
}

#[test]
fn json_lowers_to_json_where_either_capability_declares_it() {
    let none = || without(capabilities(), &[TypeKind::Json]);
    let typed = || with(none(), &[TypeKind::Json]);
    let mut nested = none();
    nested.json = true;
    for (capabilities, expected) in [
        (&none(), LogicalType::Utf8),
        (&typed(), LogicalType::Json),
        (&nested, LogicalType::Json),
    ] {
        assert!(lower(&LogicalType::Json, Nested::Native, capabilities).same(&expected));
    }
    let object = structure(vec![field("n", LogicalType::Int64, true)]);
    let mut structs = with(typed(), &[TypeKind::Struct]);
    structs.structs = true;
    assert!(lower(&object, Nested::Native, &structs).same(&object));
    assert!(lower(&object, Nested::Json, &structs).same(&LogicalType::Json));
    assert!(lower(&object, Nested::Native, &typed()).same(&LogicalType::Json));
}

#[test]
fn a_merge_table_created_without_its_key_column_refuses_batches() {
    let resolver = resolver(capabilities(), &["id"]);
    let model = resolver.created(&[("v", LogicalType::Utf8)]);
    let columns: Columns =
        vec![("v", LogicalType::Utf8, Arc::new(StringArray::from(vec!["a"])))];
    let (view, result) = prepared(&resolver, &model, &columns);
    assert!(view.key.is_empty());
    assert_eq!(result.expect_err("the key is missing").code(), "merge_key_missing");
}

#[test]
fn lists_of_structs_widen_item_by_item() {
    let from = list(structure(vec![field("a", LogicalType::Int32, true)]));
    let to = list(structure(vec![
        field("a", LogicalType::Int64, true),
        field("b", LogicalType::Utf8, true),
    ]));
    let Conversion::List(item) = convert(&from, &to) else {
        panic!("lists convert item by item")
    };
    let Conversion::Struct(sources) = *item else {
        panic!("the item is a struct")
    };
    assert!(matches!(sources[0], FieldSource::Field(0, Conversion::Cast)));
    assert!(matches!(sources[1], FieldSource::Nulls));
}

#[test]
fn large_text_normalizes_to_its_plain_type() {
    let resolver = resolver(capabilities(), &[]);
    let model = resolver.created(&[("note", LogicalType::Utf8)]);
    let large: ArrayRef = Arc::new(LargeStringArray::from(vec!["x"]));
    let columns: Columns = vec![("note", LogicalType::Utf8, large.clone())];
    let (_, result) = prepared(&resolver, &model, &columns);
    let (_, _, fills, _) = contents(result.unwrap_or_else(|fault| panic!("{fault:?}")));
    assert!(matches!(
        &fills[0],
        Fill::Stored { column: 0, how: Conversion::Normalize, form: None }
    ));
    let plain = cast(&large, &DataType::Utf8).expect("text narrows its offsets");
    assert_eq!(plain.as_string::<i32>().value(0), "x");
}

#[test]
fn an_existing_variant_widens_where_the_destination_can_and_else_values_go_to_json() {
    let decimal_only = |widens: bool| {
        let mut capabilities = fixed();
        if widens {
            capabilities.widenings.push((TypeKind::Decimal, TypeKind::Decimal));
        }
        capabilities
    };
    for (widens, route, name, logical) in [
        (true, 1, "amount__decimal", decimal(20, 2)),
        (false, 2, "amount__json", LogicalType::Json),
    ] {
        let resolver = resolver(decimal_only(widens), &[]);
        let model = resolver.created(&[("amount", LogicalType::Int8)]);
        let first = expect(resolver.resolve(&model, &[("amount", decimal(10, 2))]));
        assert_column(&first.model, 1, "amount__decimal", &decimal(10, 2));
        let wider = expect(resolver.resolve(&first.model, &[("amount", decimal(20, 2))]));
        assert_eq!(wider.routes, [Route::Column(route)], "widens: {widens}");
        assert_column(&wider.model, route, name, &logical);
    }
}

#[test]
fn values_a_variant_holds_go_there_and_only_to_their_own_columns_variants() {
    let resolver = resolver(fixed(), &[]);
    let model = resolver.created(&[("a", LogicalType::Int32), ("b", LogicalType::Int32)]);
    let a_wide = expect(resolver.resolve(&model, &[("a", LogicalType::Int64)]));
    assert_eq!(a_wide.routes, [Route::Column(2)]);
    let again = expect(resolver.resolve(&a_wide.model, &[("a", LogicalType::Int64)]));
    assert!(again.changes.is_empty(), "a__int64 already holds them");
    assert_eq!(again.routes, [Route::Column(2)]);
    let b_wide = expect(resolver.resolve(&a_wide.model, &[("b", LogicalType::Int64)]));
    assert_eq!(b_wide.routes, [Route::Column(3)], "never a's variant");
    assert_eq!(b_wide.model.columns[3].name, "b__int64");
}

#[test]
fn a_batch_fits_its_table_once_its_changes_apply() {
    for capabilities in [capabilities(), fixed()] {
        let mut resolver = resolver(capabilities, &["id"]);
        resolver.policies = vec![("dropped", SchemaPolicy::DiscardRow)];
        resolver.hints = vec![("hinted", LogicalType::Int8)];
        let before = [("id", LogicalType::Int64), ("a", LogicalType::Int32)];
        let model = resolver.created(&before);
        let batch = [
            ("a", LogicalType::Int64),
            ("new", LogicalType::Utf8),
            ("dropped", LogicalType::Bool),
            ("hinted", LogicalType::Int16),
            ("empty", LogicalType::Null),
            ("id", LogicalType::Int32),
        ];
        let first = expect(resolver.resolve(&model, &batch));
        assert!(!first.changes.is_empty());
        assert_eq!(first.model.version, 2);
        assert_eq!(first.routes[2], Route::DiscardRows);
        assert_eq!(first.routes[4..], [Route::Skip, Route::Column(0)]);
        let again = expect(resolver.resolve(&first.model, &batch));
        assert!(again.changes.is_empty());
        assert_eq!(again.routes, first.routes);
        assert!(same_model(&again.model, &first.model));
    }
}

#[test]
fn a_value_its_column_cannot_represent_fails_the_batch() {
    let resolver = resolver(capabilities(), &[]);
    let nanos = LogicalType::Timestamp(TimeUnit::Nanosecond, None);
    let model = resolver.created(&[("at", nanos)]);
    let year_3000: ArrayRef = Arc::new(TimestampSecondArray::from(vec![32_503_680_000]));
    let seconds = LogicalType::Timestamp(TimeUnit::Second, None);
    let resolution = expect(resolver.resolve(&model, &[("at", seconds.clone())]));
    assert!(resolution.changes.is_empty(), "the column's type holds the batch's");
    let columns: Columns = vec![("at", seconds, year_3000.clone())];
    let (_, result) = prepared(&resolver, &model, &columns);
    let (_, _, fills, _) = contents(result.unwrap_or_else(|fault| panic!("{fault:?}")));
    assert!(matches!(
        &fills[0],
        Fill::Stored { column: 0, how: Conversion::Cast, form: None }
    ));
    let error = cast(&year_3000, &DataType::Timestamp(ArrowUnit::Nanosecond, None))
        .expect_err("the year does not fit");
    let error = unrepresentable("s", "at", &error);
    assert_eq!(
        (error.kind(), error.code()),
        (ErrorKind::Schema, Some("value_unrepresentable"))
    );
    assert!(error.message.starts_with("stream s: column at cannot hold a value of the batch: "));
}

#[test]
fn constant_metadata_columns_are_built_once_and_sliced_per_batch() {
    let (load, started) = (5, 1_000);
    let hundred = Constants { load_id: load, loaded_at: started, rows: 100 };
    assert!(hundred.serve(load, started, 100), "the same size reuses them");
    assert!(hundred.serve(load, started, 60), "a batch over half their size reuses them");
    assert!(!hundred.serve(load, started, 40), "a much smaller batch gets its own");
    let forty = Constants { load_id: load, loaded_at: started, rows: 40 };
    assert!(!forty.serve(load, started, 41), "a larger batch gets its own");
    let forty_one = Constants { load_id: load, loaded_at: started, rows: 41 };
    assert!(!forty_one.serve(6, started, 41), "another load gets its own");
    assert!(!forty_one.serve(load, 2_000, 41), "another start gets its own");
}

#[test]
fn only_a_normalized_table_is_created_by_a_batch_without_values() {
    let mut resolver = resolver(capabilities(), &[]);
    let nulls = [("unknown", LogicalType::Null)];
    let resolution = expect(resolver.resolve(&Model::new(), &nulls));
    assert!(!resolution.model.created(), "a plain table waits for a value");
    resolver.normalized = true;
    let first = expect(resolver.resolve(&Model::new(), &nulls));
    assert_eq!(first.model.version, 1, "its rows' lineage creates it");
    let wider = expect(resolver.resolve(&first.model, &[("a", LogicalType::Int64)]));
    assert_eq!(wider.model.version, 2);
    let again = expect(resolver.resolve(&wider.model, &[("a", LogicalType::Int64)]));
    assert_eq!(again.model.version, 2, "a batch that fits changes nothing");
}

#[test]
fn each_refusal_names_its_cause() {
    let mut frozen = resolver(capabilities(), &[]);
    frozen.policy = SchemaPolicy::Freeze;
    let model = frozen.created(&[("id", LogicalType::Int64)]);
    let refused = frozen.resolve(&model, &[("extra", LogicalType::Utf8)]);
    assert!(matches!(refused, Err(Refused { column: 0, cause: Cause::NewColumn })));
    let mut rigid = resolver(capabilities(), &[]);
    rigid.capabilities.add_column = false;
    let refused = rigid.resolve(&model, &[("extra", LogicalType::Utf8)]);
    assert!(matches!(refused, Err(Refused { column: 0, cause: Cause::CannotAdd })));
    let mut refusing = resolver(fixed(), &[]);
    refusing.on_unsupported = OnUnsupported::Refuse;
    let refused = refusing.resolve(&refusing.created(&[("n", LogicalType::Int32)]), &[(
        "n",
        LogicalType::Int64,
    )]);
    let Err(Refused { column: 0, cause }) = refused else {
        panic!("no variant is wanted")
    };
    assert_eq!(cause.code(), "schema_change_unsupported");
    assert!(cause.detail("int32", "int64").contains("int64"));
}

#[test]
fn settings_come_from_the_column_a_nested_one_is_of() {
    let nested = ColumnPath { segments: vec!["a".to_owned(), "b".to_owned()] };
    assert!(settings_column(None, &nested).same(&path("a")));
    assert!(settings_column(Some(&path("o")), &nested).same(&path("o")));
}

#[test]
fn metadata_columns_follow_from_the_tables_shape() {
    assert_eq!(
        wanted_columns(true, LineageColumns::Child),
        [
            MetaColumn::LoadId,
            MetaColumn::LoadedAt,
            MetaColumn::Sequence,
            MetaColumn::Id,
            MetaColumn::ParentId,
            MetaColumn::RootId,
            MetaColumn::Idx,
        ]
    );
    let names: Vec<String> = ["l", "a", "s", "i"].into_iter().map(str::to_owned).collect();
    let meta = MetaNames::assign(names, true, LineageColumns::Root);
    assert_eq!(meta.all(), ["l", "a", "s", "i"]);
    assert_eq!(meta.kinds(), wanted_columns(true, LineageColumns::Root));
    assert_eq!(lineage_columns(&meta, None), Err(MissingLineage::Normalized));
    assert_eq!(MissingLineage::Normalized.kind(), ErrorKind::Internal);
    let lineage = Lineage { root_row: vec![0], parent: false };
    assert_eq!(lineage_columns(&meta, Some(&lineage)), Ok(vec![MetaColumn::Id]));
}

#[test]
fn children_take_the_sequence_of_their_root_row() {
    let resolver = resolver(capabilities(), &["id"]);
    let model = resolver.created(&[("id", LogicalType::Int64)]);
    let root =
        RootKey { table: "t".to_owned(), id: "_rdlt_id".to_owned(), seq: "_rdlt_seq".to_owned() };
    let shape = Shape { key: vec![path("id")], nested: vec![Nested::Native], root: Some(root) };
    let view =
        TableView::new(&table("t"), model, &shape, resolver.meta(), &resolver.capabilities);
    assert!(!view.compacts(), "a child's rows follow its root's");
    let batch = Batch {
        rows: 2,
        columns: vec![ColumnNulls { nulls: vec![false; 2], logical: vec![false; 2] }],
    };
    let plan = LoweringPlan::new(vec![Route::Column(0)], 1);
    let lineage = Lineage { root_row: vec![4, 4], parent: true };
    let prepared = plan
        .prepare(&view, &vec![LogicalType::Int64], &batch, Some(&lineage), stamp())
        .unwrap_or_else(|fault| panic!("{fault:?}"));
    let (_, _, _, sequences) = contents(prepared);
    assert_eq!(sequences, Some(vec![sequence_bytes(7, 14); 2]));
}

#[test]
fn sequences_order_rows_as_they_arrived() {
    assert!(sequence_bytes(1, u64::MAX) < sequence_bytes(2, 0));
    assert!(sequence_bytes(7, 255) < sequence_bytes(7, 256));
    assert_eq!(sequence(7, 10, 2, Some(&vec![3, 5])), [
        sequence_bytes(7, 13),
        sequence_bytes(7, 15)
    ]);
    assert_eq!(positions(&vec![true, false, true]), [0, 2]);
    assert_eq!(kept_rows(&vec![8, 9], &vec![false, true]), [9]);
    assert_eq!(last_rows(&vec![vec![1], vec![2]]), None, "no key repeats");
    assert_eq!(last_rows(&vec![vec![1], vec![2], vec![1]]), Some(vec![1, 2]));
}

#[test]
fn keys_agree_where_every_column_does() {
    let texts = |values: &[&str]| {
        KeyColumn::Texts(values.iter().map(|value| (*value).to_owned()).collect())
    };
    let kept = |columns: Vec<KeyColumn>, rows: usize| compact(&columns, rows).expect("whole keys");
    assert_eq!(kept(vec![texts(&["a", "ab", "a", ""])], 4), Some(vec![1, 2, 3]));
    assert_eq!(kept(vec![texts(&["a", "ab"]), texts(&["bc", "c"])], 2), None, "not joined");
    assert_eq!(
        kept(vec![KeyColumn::Numbers(vec![1, 1, 1]), KeyColumn::Numbers(vec![1, 0, 1])], 3),
        Some(vec![1, 2])
    );
    assert_eq!(kept(vec![KeyColumn::Numbers(vec![i128::MIN, -1, i128::MIN])], 3), Some(vec![1, 2]));
    assert_eq!(
        kept(vec![KeyColumn::Bytes(vec![vec![], vec![0], vec![0, 0], vec![0]])], 4),
        Some(vec![0, 2, 3])
    );
    assert_eq!(kept(vec![KeyColumn::Numbers(vec![])], 0), None);
}

#[test]
fn load_starts_outside_the_range_saturate() {
    assert_eq!(load_micros(None), 0);
    assert_eq!(load_micros(Some(u128::MAX)), i64::MAX);
}

#[test]
fn dates_and_times_convert_through_the_library() {
    let utc = Some("UTC".to_owned());
    let instant = LogicalType::Timestamp(TimeUnit::Second, utc.clone());
    assert!(matches!(
        convert(&LogicalType::Date, &instant),
        Conversion::Midnights(TimeUnit::Second, Some(_))
    ));
    let naive = LogicalType::Timestamp(TimeUnit::Millisecond, None);
    assert!(matches!(
        convert(&naive, &instant),
        Conversion::Localized(TimeUnit::Millisecond, TimeUnit::Second, _)
    ));
    assert!(matches!(
        convert(
            &LogicalType::Time(TimeUnit::Second),
            &LogicalType::Time(TimeUnit::Nanosecond)
        ),
        Conversion::Times(TimeUnit::Nanosecond)
    ));
    assert!(matches!(convert(&LogicalType::Null, &LogicalType::Int8), Conversion::Nulls));
    assert!(matches!(convert(&LogicalType::Int8, &LogicalType::Json), Conversion::Json));
    assert_eq!(field_named(&vec![field("a", LogicalType::Int8, true)], &"b".to_owned()), None);
    assert_eq!(text_form(&LogicalType::Binary), TextForm::Hex);
    assert_eq!(render_bytes(&[0, 255], false), "00ff");
}

fn part(name: &str, layout: Layout) -> Part {
    Part { name: name.to_owned(), layout, nullable: true }
}

#[test]
fn layouts_are_reworked_all_the_way_down() {
    let plain = || Layout::Plain("Utf8".to_owned());
    let dictionary = Layout::Dictionary(Box::new(Layout::Plain("Int8".to_owned())), Box::new(plain()));
    let nested = Layout::Struct(vec![part("d", dictionary), part("t", Layout::Date32)]);
    let Layout::Struct(parts) = decoded_type(&nested) else {
        panic!("a struct stays one")
    };
    assert!(matches!(&parts[0].layout, Layout::Plain(name) if name == "Utf8"));
    let Layout::Struct(parts) = wide_dates(&nested) else {
        panic!("a struct stays one")
    };
    assert!(matches!(&parts[1].layout, Layout::Date64));
    let entries = Layout::Entries(Box::new(part("entries", Layout::Date64)), false);
    assert!(matches!(unmapped(&entries), Layout::List(_)));
}

#[test]
fn texts_are_quoted_and_lists_written_item_by_item() {
    let mut out = b"x:".to_vec();
    push_quoted(&mut out, &b"1970-01-01".to_vec());
    assert_eq!(out, b"x:\"1970-01-01\"");
    assert_eq!(encode_items(&vec![None, Some(b"1".to_vec())]), b"[null,1]");
    assert_eq!(extension(Some(&"arrow.json".to_owned())), Extension::Json);
    assert_eq!(extension(None), Extension::Other);
}
