//! What a destination is asked to store: only what it can, and as it is wherever it can.

use crate::table::lower::{
    is_native, is_prepared, lowered, physical, Capabilities, MetaNames, Nested, PreparedField,
};
use crate::table::temporal::TimeUnit;
use crate::table::types::{FieldView, LogicalType, TypeKind, TypeView};
use vstd::prelude::*;

verus! {

/// The type inside `logical` that `path` leads to: a field of a struct by its position, and the
/// items of a list by zero, over and over.
pub open spec fn part(logical: TypeView, path: Seq<int>) -> Option<TypeView>
    decreases path.len(),
{
    if path.len() == 0 {
        Some(logical)
    } else {
        match logical {
            TypeView::Struct(fields) => if 0 <= path[0] < fields.len() {
                part(fields[path[0]].logical, path.drop_first())
            } else {
                None
            },
            TypeView::List(item) => if path[0] == 0 {
                part(item.logical, path.drop_first())
            } else {
                None
            },
            _ => None,
        }
    }
}

/// Whether the destination stores a type's own kind, whatever is inside it: nulls are stored
/// anywhere.
pub open spec fn is_kept_by(logical: TypeView, capabilities: &Capabilities) -> bool {
    match logical {
        TypeView::Null => true,
        TypeView::Struct(_) => capabilities.structs,
        TypeView::List(_) => capabilities.lists,
        other => capabilities.types@.contains(other.kind()),
    }
}

/// Whether the destination has JSON.
pub open spec fn has_json(capabilities: &Capabilities) -> bool {
    capabilities.types@.contains(TypeKind::Json) || capabilities.json
}

/// Whether the destination stores every type inside `logical`, at any depth.
pub open spec fn is_wholly_kept(logical: TypeView, capabilities: &Capabilities) -> bool {
    forall|path: Seq<int>|
        (#[trigger] part(logical, path)) is Some ==> is_kept_by(part(logical, path)->0, capabilities)
}

proof fn lemma_native_parts(logical: TypeView, capabilities: &Capabilities, path: Seq<int>)
    requires
        is_native(logical, capabilities),
    ensures
        part(logical, path) matches Some(inner) ==> is_kept_by(inner, capabilities),
    decreases path.len(),
{
    if path.len() > 0 {
        match logical {
            TypeView::Struct(fields) => {
                if 0 <= path[0] < fields.len() {
                    assert(is_native(fields[path[0]].logical, capabilities));
                    lemma_native_parts(fields[path[0]].logical, capabilities, path.drop_first());
                }
            },
            TypeView::List(item) => {
                lemma_native_parts(item.logical, capabilities, path.drop_first());
            },
            _ => {},
        }
    }
}

proof fn lemma_kept_is_native(logical: TypeView, capabilities: &Capabilities)
    requires
        is_wholly_kept(logical, capabilities),
    ensures
        is_native(logical, capabilities),
    decreases logical,
{
    let here = Seq::<int>::empty();
    assert(part(logical, here) == Some(logical));
    match logical {
        TypeView::Struct(fields) => {
            assert forall|i: int| 0 <= i < fields.len() implies is_native(
                (#[trigger] fields[i]).logical,
                capabilities,
            ) by {
                assert forall|path: Seq<int>| (
                #[trigger] part(fields[i].logical, path)) is Some implies is_kept_by(
                    part(fields[i].logical, path)->0,
                    capabilities,
                ) by {
                    let longer = seq![i] + path;
                    assert(longer.drop_first() =~= path);
                    assert(part(logical, longer) == part(fields[i].logical, path));
                }
                lemma_kept_is_native(fields[i].logical, capabilities);
            }
        },
        TypeView::List(item) => {
            assert forall|path: Seq<int>| (
            #[trigger] part(item.logical, path)) is Some implies is_kept_by(
                part(item.logical, path)->0,
                capabilities,
            ) by {
                let longer = seq![0int] + path;
                assert(longer.drop_first() =~= path);
                assert(part(logical, longer) == part(item.logical, path));
            }
            lemma_kept_is_native(item.logical, capabilities);
        },
        _ => {},
    }
}

/// A destination is asked to store only what it can: every type inside the one a column is lowered
/// to, at any depth, is one it stores, but for text, which every destination has, and for JSON
/// where it has it, which stand alone.
pub proof fn law_every_part_is_stored(
    logical: TypeView,
    nested: Nested,
    capabilities: &Capabilities,
    path: Seq<int>,
)
    ensures
        part(lowered(logical, nested, capabilities), path) matches Some(inner) ==> {
            ||| is_kept_by(inner, capabilities)
            ||| path.len() == 0 && inner == TypeView::Utf8
            ||| path.len() == 0 && inner == TypeView::Json && has_json(capabilities)
        },
{
    let stored = lowered(logical, nested, capabilities);
    if is_native(stored, capabilities) {
        lemma_native_parts(stored, capabilities, path);
    } else {
        assert(stored == TypeView::Utf8 || stored == TypeView::Json);
    }
}

/// What a destination can store stays as it is: a type whose every part it stores is not lowered,
/// unless it is nested and its column asks for JSON. A column of nulls has a type only where nulls
/// are one of the destination's.
pub proof fn law_what_can_be_stored_stays(
    logical: TypeView,
    nested: Nested,
    capabilities: &Capabilities,
)
    requires
        is_wholly_kept(logical, capabilities),
        logical is Struct || logical is List ==> nested == Nested::Native,
        logical is Null ==> capabilities.types@.contains(TypeKind::Null),
    ensures
        lowered(logical, nested, capabilities) == logical,
{
    lemma_kept_is_native(logical, capabilities);
    assert(part(logical, Seq::empty()) == Some(logical));
}

/// What a destination cannot store becomes JSON or text: nested values and JSON become JSON, or
/// text where the destination has no JSON, and anything else becomes text. Nested values of a
/// column that asks for JSON do so even where they could be stored.
pub proof fn law_the_rest_becomes_json_or_text(
    logical: TypeView,
    nested: Nested,
    capabilities: &Capabilities,
)
    ensures
        ({
            let stored = lowered(logical, nested, capabilities);
            let document = if has_json(capabilities) {
                TypeView::Json
            } else {
                TypeView::Utf8
            };
            &&& !is_wholly_kept(logical, capabilities) || (logical is Null
                && !capabilities.types@.contains(TypeKind::Null)) || ((logical is Struct
                || logical is List) && nested == Nested::Json) ==> stored == (if logical is Struct
                || logical is List || logical is Json {
                document
            } else {
                TypeView::Utf8
            })
            &&& logical is Json ==> stored == document
        }),
{
    if is_native(logical, capabilities) {
        assert forall|path: Seq<int>| (
        #[trigger] part(logical, path)) is Some implies is_kept_by(
            part(logical, path)->0,
            capabilities,
        ) by {
            lemma_native_parts(logical, capabilities, path);
        }
    }
}

/// A table's columns in the destination are its own, in their order, each under its name, as
/// nullable as it was and lowered under its own nesting; then the load's id and start, the rows'
/// sequence where it is merged into, their ids where its stream normalizes, and their parents',
/// roots' and positions where it is a child table.
pub proof fn law_metadata_follows_the_columns(
    columns: Seq<FieldView>,
    nested: Seq<Nested>,
    meta: &MetaNames,
    capabilities: &Capabilities,
)
    requires
        nested.len() == columns.len(),
    ensures
        ({
            let fields = physical(columns, nested, meta, capabilities);
            let n = columns.len() as int;
            let merged = if meta.seq is Some {
                1int
            } else {
                0int
            };
            let owned = if meta.id is Some {
                1int
            } else {
                0int
            };
            let child = if meta.parent is Some {
                3int
            } else {
                0int
            };
            let id = n + 2 + merged;
            let parent = id + owned;
            let native = |logical: TypeView| lowered(logical, Nested::Native, capabilities);
            &&& fields.len() == parent + child
            &&& forall|i: int|
                0 <= i < n ==> (#[trigger] fields[i]) == (FieldView {
                    name: columns[i].name,
                    logical: lowered(columns[i].logical, nested[i], capabilities),
                    nullable: columns[i].nullable,
                })
            &&& fields[n] == (FieldView {
                name: meta.load_id@,
                logical: native(TypeView::Uuid),
                nullable: false,
            })
            &&& fields[n + 1] == (FieldView {
                name: meta.loaded_at@,
                logical: native(TypeView::Timestamp(TimeUnit::Microsecond, Some("UTC"@))),
                nullable: false,
            })
            &&& meta.seq matches Some(seq) ==> fields[n + 2] == (FieldView {
                name: seq@,
                logical: native(TypeView::Binary),
                nullable: false,
            })
            &&& meta.id matches Some(name) ==> fields[id] == (FieldView {
                name: name@,
                logical: native(TypeView::Binary),
                nullable: true,
            })
            &&& meta.parent matches Some((of, root, idx)) ==> {
                &&& fields[parent] == (FieldView {
                    name: of@,
                    logical: native(TypeView::Binary),
                    nullable: true,
                })
                &&& fields[parent + 1] == (FieldView {
                    name: root@,
                    logical: native(TypeView::Binary),
                    nullable: true,
                })
                &&& fields[parent + 2] == (FieldView {
                    name: idx@,
                    logical: native(TypeView::Int64),
                    nullable: true,
                })
            }
        }),
{
}

/// A prepared batch has the destination's columns, in their order. It names the type a column has in
/// the table's model exactly where the destination stores another, and only the load's id and start,
/// which are one value for all rows, are dictionaries.
pub proof fn law_prepared_columns_say_their_own_types(
    columns: Seq<FieldView>,
    nested: Seq<Nested>,
    meta: &MetaNames,
    capabilities: &Capabilities,
    model: Seq<LogicalType>,
    prepared: PreparedField,
    i: int,
)
    requires
        nested.len() == columns.len(),
        model.len() == columns.len(),
        forall|c: int| 0 <= c < model.len() ==> (#[trigger] model[c])@ == columns[c].logical,
        0 <= i < physical(columns, nested, meta, capabilities).len(),
        is_prepared(prepared, i, physical(columns, nested, meta, capabilities), model),
    ensures
        prepared.field@ == physical(columns, nested, meta, capabilities)[i],
        prepared.named is Some <==> i < columns.len() && prepared.field@.logical
            != columns[i].logical,
        prepared.named matches Some(named) ==> named@ == columns[i].logical,
        prepared.dictionary <==> i == columns.len() || i == columns.len() + 1,
        prepared.dictionary ==> prepared.field@.name == meta.load_id@ || prepared.field@.name
            == meta.loaded_at@,
{
    law_metadata_follows_the_columns(columns, nested, meta, capabilities);
    if i < columns.len() {
        assert(model[i]@ == columns[i].logical);
    }
}

} // verus!
