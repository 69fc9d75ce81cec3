//! The tables of one attempt: the changes a destination gets, what a commit records, the plans
//! kept, child tables and the shared session.

use rdlt_engine::error::ErrorKind;
use rdlt_engine::table::children::{
    admit_child, child_path, child_tables, family, follows_root, recorded_children, root_key,
    Admission,
};
use rdlt_engine::table::lower::{Capabilities, MetaNames, Nested};
use rdlt_engine::table::model::{ColumnKey, ColumnPath, Model};
use rdlt_engine::table::plans::{Incoming, Plans, PLANS};
use rdlt_engine::table::registry::{
    add_lineage, create_generation, delta, recorded, refusal_event, refused, table_changes,
    table_name, taken_names, FitEvent, Fitting, TableChange, Versions,
};
use rdlt_engine::table::resolve::{
    resolve_columns, Arriving, OnUnsupported, Resolution, SchemaPolicy,
};
use rdlt_engine::table::session::{closed, SharedSession};
use rdlt_engine::table::types::{Field, LogicalType, TypeKind};
use rdlt_engine::table::view::{MergeKey, RootKey, Shape, TableRef, TableView};

fn capabilities() -> Capabilities {
    Capabilities {
        types: vec![
            TypeKind::Int32,
            TypeKind::Int64,
            TypeKind::Utf8,
            TypeKind::Timestamp,
            TypeKind::Binary,
        ],
        structs: false,
        lists: false,
        json: false,
        add_column: true,
        widenings: vec![(TypeKind::Int32, TypeKind::Int64)],
    }
}

fn meta(seq: bool, id: bool) -> MetaNames {
    MetaNames {
        load_id: "_rdlt_load_id".to_owned(),
        loaded_at: "_rdlt_loaded_at".to_owned(),
        seq: if seq { Some("_rdlt_seq".to_owned()) } else { None },
        id: if id { Some("_rdlt_id".to_owned()) } else { None },
        parent: None,
    }
}

fn table(generation: Option<u64>) -> TableRef {
    TableRef {
        path: vec!["orders".to_owned()],
        name: "orders".to_owned(),
        version: 0,
        generation,
        merge: None,
    }
}

fn view_with(generation: Option<u64>, model: Model, names: MetaNames) -> TableView {
    let shape = Shape {
        key: Vec::new(),
        nested: vec![Nested::Native; model.columns.len()],
        root: None,
    };
    TableView::new(&table(generation), model, &shape, names, &capabilities())
}

fn view(generation: Option<u64>, model: Model) -> TableView {
    view_with(generation, model, meta(false, false))
}

fn wider(a: &LogicalType, b: &LogicalType) -> LogicalType {
    match (a, b) {
        (LogicalType::Int32, LogicalType::Int64) => LogicalType::Int64,
        _ => a.clone(),
    }
}

fn resolve(model: &Model, fields: &[(&str, LogicalType)]) -> Resolution {
    let columns: Vec<Arriving> = fields
        .iter()
        .map(|(name, logical)| Arriving {
            path: ColumnPath { segments: vec![(*name).to_owned()] },
            logical: logical.clone(),
            policy: SchemaPolicy::Evolve,
            on_unsupported: OnUnsupported::Variant,
            nested: Nested::Native,
            is_key: false,
            hint: None,
            joins: model.columns.iter().map(|column| wider(&column.logical, logical)).collect(),
        })
        .collect();
    let unnamed = resolve_columns(&capabilities(), model, &columns)
        .unwrap_or_else(|refused| panic!("{refused:?}"));
    let names = unnamed
        .added()
        .iter()
        .map(|added| match &added.key {
            ColumnKey::Source(path) => path.segments[0].clone(),
            ColumnKey::Variant { .. } => panic!("no variant is wanted"),
        })
        .collect();
    unnamed.finish(names, false)
}

/// The view once `fields` fit it, and the changes the destination gets.
fn fitted(before: &TableView, fields: &[(&str, LogicalType)]) -> (TableView, Vec<TableChange>) {
    let resolution = resolve(&before.model, fields);
    let after = view(before.table.generation, resolution.model);
    let changes = table_changes(before, &after, &resolution.changes);
    (after, changes)
}

#[test]
fn a_change_is_applied_once_and_later_batches_fit_without_one() {
    let empty = view(None, Model::new());
    let first = [("id", LogicalType::Int64)];
    let (created, changes) = fitted(&empty, &first);
    assert_eq!(created.model.version, 1);
    assert!(matches!(changes[..], [TableChange::Create { .. }]));
    let again = resolve(&created.model, &first);
    assert_eq!(again.model.version, 1, "a batch that fits needs no change");
    assert!(again.changes.is_empty());
    let (noted, changes) =
        fitted(&created, &[("id", LogicalType::Int64), ("note", LogicalType::Utf8)]);
    assert_eq!(noted.table.version, 2);
    assert_eq!(changes.len(), 1);
    assert!(matches!(&changes[0], TableChange::AddColumn { field, .. } if field.name == "note"));
}

#[test]
fn widenings_change_how_a_column_is_stored() {
    let (created, _) = fitted(&view(None, Model::new()), &[("n", LogicalType::Int32)]);
    let (_, changes) = fitted(&created, &[("n", LogicalType::Int64)]);
    assert!(matches!(
        &changes[0],
        TableChange::Widen { from: LogicalType::Int32, to: LogicalType::Int64, column, .. }
            if column == "n"
    ));
}

#[test]
fn a_replace_generation_is_created_with_the_tables_columns_once_the_table_exists() {
    assert!(create_generation(&view(Some(4), Model::new())).is_none(), "no table yet");
    let (created, _) = fitted(&view(Some(4), Model::new()), &[("id", LogicalType::Int64)]);
    let Some(TableChange::Create { table, schema }) = create_generation(&created) else {
        panic!("the generation is created")
    };
    assert_eq!(table.generation, Some(4));
    assert_eq!(schema.len(), 3, "id and two metadata columns");
    let (plain, _) = fitted(&view(None, Model::new()), &[("id", LogicalType::Int64)]);
    assert!(create_generation(&plain).is_none(), "no generation to create");
}

#[test]
fn a_table_created_before_its_stream_normalized_gains_its_lineage() {
    let (created, _) = fitted(&view(None, Model::new()), &[("id", LogicalType::Int64)]);
    assert!(add_lineage(&created).is_empty(), "the stream does not normalize");
    let normalized = view_with(None, created.model, meta(false, true));
    let changes = add_lineage(&normalized);
    assert_eq!(changes.len(), 1);
    assert!(matches!(
        &changes[0],
        TableChange::AddColumn { field, .. } if field.name == "_rdlt_id" && field.nullable
    ));
    let fresh = view_with(None, Model::new(), meta(false, true));
    assert!(add_lineage(&fresh).is_empty(), "a table not created yet is created with it");
}

#[test]
fn the_delta_holds_tables_changed_since_state_recorded_them() {
    let mut tables = vec![Versions { current: 0, recorded: 0 }];
    assert!(delta(&tables).is_empty());
    tables[0].current = 1;
    let changed = delta(&tables);
    assert_eq!(changed, [(0, 1)]);
    recorded(&mut tables, &changed);
    assert!(delta(&tables).is_empty());
    recorded(&mut tables, &vec![(0, 0)]);
    assert!(delta(&tables).is_empty(), "an older version never lowers the record");
}

#[test]
fn a_closed_session_refuses_further_calls() {
    let mut shared = SharedSession::new(7_u8);
    *shared.get().expect("the session is open") += 1;
    assert_eq!(shared.close(), Some(8), "a call through the session changes it");
    assert_eq!(shared.close(), None);
    let error = shared.get().expect_err("the session is closed");
    assert_eq!((error.kind(), error.code()), (ErrorKind::Internal, None));
    assert_eq!(error.message, "the destination session is already closed");
    assert_eq!(error, closed());
}

/// Fits a batch to a table whose destination answers every change with `answer`; how many changes
/// it gets, and how the fitting ends.
fn answered(answer: FitEvent) -> (usize, Fitting) {
    let mut fitting = Fitting::Looking;
    let mut calls = 0;
    while !fitting.is_over() {
        let event = match fitting {
            Fitting::Locking => FitEvent::Locked,
            Fitting::Applying { .. } => {
                calls += 1;
                answer
            }
            _ => FitEvent::Resolved { unchanged: false },
        };
        fitting = fitting.after(event);
    }
    (calls, fitting)
}

#[test]
fn only_a_first_conflict_is_named_around() {
    let table = Versions { current: 0, recorded: 0 };
    for (code, calls) in [(None, 1), (Some("schema_conflict"), 2)] {
        let (counted, fitting) = answered(refusal_event(code));
        assert_eq!((counted, fitting), (calls, Fitting::Refused), "{code:?}");
        let error = refused("orders", "refused", code);
        assert_eq!((error.kind(), error.code()), (ErrorKind::Destination, code));
        assert_eq!(error.message, "changing the table of stream orders: refused");
        assert_eq!(table.fitted(fitting, 1).current, 0, "a refused change changes nothing");
    }
    assert_eq!(refusal_event(Some("permission")), FitEvent::Rejected);
    let (counted, fitting) = answered(FitEvent::Applied);
    assert_eq!((counted, fitting), (1, Fitting::Evolved));
    assert_eq!(table.fitted(fitting, 1), Versions { current: 1, recorded: 0 });
}

#[test]
fn concurrent_changes_to_one_table_each_apply_on_top_of_the_other() {
    let locked = Fitting::Looking
        .after(FitEvent::Resolved { unchanged: false })
        .after(FitEvent::Locked);
    assert_eq!(locked, Fitting::LookingAgain, "a change is worked out again under the lock");
    assert_eq!(locked.after(FitEvent::Resolved { unchanged: true }), Fitting::Fits);
    let (created, _) = fitted(&view(None, Model::new()), &[("id", LogicalType::Int64)]);
    let (one, _) = fitted(&created, &[("id", LogicalType::Int64), ("a", LogicalType::Utf8)]);
    let (two, changes) = fitted(&one, &[("id", LogicalType::Int64), ("b", LogicalType::Int32)]);
    assert_eq!((one.model.version, two.model.version), (2, 3));
    let names: Vec<&str> = two.model.columns.iter().map(|column| column.name.as_str()).collect();
    assert_eq!(names, ["id", "a", "b"]);
    assert_eq!(changes.len(), 1);
    let refused = Fitting::Looking.after(FitEvent::NotResolved);
    assert!(refused == Fitting::Unresolved && refused.is_over());
}

fn incoming(name: &str) -> Incoming {
    Incoming::top_level(vec![Field {
        name: name.to_owned(),
        logical: LogicalType::Int64,
        nullable: true,
    }])
}

#[test]
fn plans_are_kept_for_the_current_view() {
    let mut plans = Plans::new();
    assert!(plans.find(1, &incoming("a")).is_none());
    plans.keep(1, incoming("a"), 'a');
    plans.keep(1, incoming("b"), 'b');
    assert_eq!(plans.find(1, &incoming("a")), Some(&'a'));
    assert_eq!(plans.find(2, &incoming("a")), None);
    plans.keep(2, incoming("c"), 'c');
    assert_eq!(plans.find(1, &incoming("a")), None, "plans for an older view are dropped");
    for at in 0..PLANS {
        plans.keep(2, incoming(&format!("{at}")), 'x');
    }
    assert_eq!(plans.find(2, &incoming("c")), None, "the oldest makes room");
    assert_eq!(plans.find(2, &incoming("0")), Some(&'x'));
    assert!(incoming("a").same(&incoming("a")) && !incoming("a").same(&incoming("b")));
    assert_eq!(incoming("a").paths[0].segments, ["a"]);
}

#[test]
fn new_child_tables_follow_the_policy_once_their_root_exists() {
    let policies = [
        (SchemaPolicy::Evolve, Admission::Add),
        (SchemaPolicy::Freeze, Admission::Refuse),
        (SchemaPolicy::DiscardValue, Admission::Discard),
        (SchemaPolicy::DiscardRow, Admission::DiscardParents),
    ];
    for (policy, admission) in policies {
        assert_eq!(admit_child(false, true, false, Some(policy)), admission);
        assert_eq!(admit_child(true, true, false, Some(policy)), Admission::Add, "it exists");
        assert_eq!(admit_child(false, false, false, Some(policy)), Admission::Add, "a new root");
        assert_eq!(admit_child(false, true, true, Some(policy)), Admission::Add, "recorded");
    }
    assert_eq!(admit_child(false, true, false, None), Admission::Add, "no path, no policy");
}

fn names(parts: &[&str]) -> Vec<String> {
    parts.iter().map(|part| (*part).to_owned()).collect()
}

#[test]
fn tables_keep_their_committed_names_and_new_ones_are_named_apart() {
    let committed = vec![Some("orders".to_owned()), None, Some("orders".to_owned())];
    let mut taken = taken_names(&committed);
    assert_eq!(taken, ["orders"]);
    let free = || "orders_2".to_owned();
    assert_eq!(table_name(committed[0].as_ref(), free(), &mut taken), "orders");
    assert_eq!(taken, ["orders"], "a committed name is taken already");
    assert_eq!(table_name(None, free(), &mut taken), "orders_2");
    assert_eq!(taken, ["orders", "orders_2"]);
    let late = "late".to_owned();
    assert_eq!(table_name(Some(&late), String::new(), &mut taken), "late");
    assert_eq!(taken, ["orders", "orders_2", "late"]);
}

#[test]
fn child_paths_are_below_their_root() {
    assert_eq!(child_path(&names(&["o"]), &names(&["items", "tags"])), ["o", "items", "tags"]);
    let committed =
        vec![names(&["o"]), names(&["o", "items"]), names(&["p", "x"]), names(&["o", "a", "b"])];
    assert_eq!(
        recorded_children(&names(&["o"]), &committed),
        [names(&["items"]), names(&["a", "b"])]
    );
}

#[test]
fn a_merge_streams_children_follow_their_root() {
    let merged = view_with(None, Model::new(), meta(true, true));
    let key = root_key(&merged).expect("a root its children follow");
    assert_eq!((key.table.as_str(), key.id.as_str()), ("orders", "_rdlt_id"));
    assert_eq!(key.seq, "_rdlt_seq");
    assert!(root_key(&view_with(None, Model::new(), meta(false, true))).is_none());
    assert!(root_key(&view_with(None, Model::new(), meta(true, false))).is_none());
    let mut child = table(None);
    child.merge = Some(MergeKey {
        columns: Vec::new(),
        seq: "_rdlt_seq".to_owned(),
        root: Some(RootKey {
            table: "orders".to_owned(),
            id: "_rdlt_id".to_owned(),
            seq: "_rdlt_seq".to_owned(),
        }),
    });
    assert!(follows_root(&child) && !follows_root(&merged.table));
    assert_eq!(child_tables(&vec![merged.table, child]), [1]);
    assert_eq!(family(0, &vec![(0, 3), (1, 4), (0, 5)]), [0, 3, 5]);
}
