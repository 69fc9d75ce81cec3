//! A batch fits its table once the changes it needs are made: resolving it again changes nothing.

use crate::search::{first_where, lemma_first_is, lemma_first_where};
use crate::table::lower::Capabilities;
use crate::table::model::{has_key, has_name, is_owned, name_in, KeyView, ModelView};
use crate::table::order::{
    agrees, changes_only, is_alike, is_injective, is_of, lemma_alike, lemma_resolved,
    lemma_routed_alone, path_of, untouched,
};
use crate::table::resolve::{
    admitted, are_distinct, arriving_views, candidates, change_views, is_finished, is_own_column,
    is_resolution, kinds, lemma_added_fits, lemma_column_is_one, placed, resolved_model, routed,
    routed_all, variants, widens_in_place, with_added, AddedView, Arriving, ArrivingView, CauseView,
    DraftView, Refused, Resolution, Route, SchemaPolicy, Unnamed,
};
use crate::table::types::{TypeKind, TypeView};
use vstd::prelude::*;

verus! {

/// Whether a type that took in `b` holds it already: it joins with `b` to itself.
pub open spec fn takes_in(
    join: spec_fn(TypeView, TypeView) -> TypeView,
    a: TypeView,
    b: TypeView,
) -> bool {
    join(join(a, b), b) == join(a, b)
}

/// Whether a type joins with itself to itself, and JSON, which holds anything, with the type to
/// JSON.
pub open spec fn holds_itself(
    join: spec_fn(TypeView, TypeView) -> TypeView,
    a: TypeView,
) -> bool {
    join(a, a) == a && join(TypeView::Json, a) == TypeView::Json
}

/// Whether `join` gives types that hold the values of both.
pub open spec fn is_join(join: spec_fn(TypeView, TypeView) -> TypeView) -> bool {
    &&& forall|a: TypeView, b: TypeView| #[trigger] takes_in(join, a, b)
    &&& forall|a: TypeView| #[trigger] holds_itself(join, a)
}

/// Whether the joins of `column` are those with the types of `model`.
pub open spec fn is_joined(
    join: spec_fn(TypeView, TypeView) -> TypeView,
    model: ModelView,
    column: ArrivingView,
) -> bool {
    &&& column.joins.len() == model.columns.len()
    &&& forall|c: int|
        0 <= c < model.columns.len() ==> #[trigger] column.joins[c] == join(
            model.columns[c].logical,
            column.logical,
        )
    &&& column.hint matches Some((logical, joined)) ==> joined == join(logical, column.logical)
}

/// `column`, joined with the types of `model`.
pub open spec fn rejoined(
    join: spec_fn(TypeView, TypeView) -> TypeView,
    model: ModelView,
    column: ArrivingView,
) -> ArrivingView {
    ArrivingView {
        joins: Seq::new(
            model.columns.len(),
            |c: int| join(model.columns[c].logical, column.logical),
        ),
        ..column
    }
}

/// `columns`, joined with the types of `model`.
pub open spec fn all_rejoined(
    join: spec_fn(TypeView, TypeView) -> TypeView,
    model: ModelView,
    columns: Seq<ArrivingView>,
) -> Seq<ArrivingView> {
    Seq::new(columns.len(), |i: int| rejoined(join, model, columns[i]))
}

/// Whether every key has one identifier, and every identifier one key.
pub open spec fn is_naming(names: Seq<(KeyView, Seq<char>)>) -> bool {
    forall|i: int, j: int|
        0 <= i < j < names.len() ==> (#[trigger] names[i]).0 != (#[trigger] names[j]).0
            && names[i].1 != names[j].1
}

/// Whether every column of `model` is some key's.
pub open spec fn has_owners(model: ModelView) -> bool {
    forall|c: int|
        0 <= c < model.columns.len() ==> is_owned(model.names, (#[trigger] model.columns[c]).name)
}

proof fn lemma_named_once(names: Seq<(KeyView, Seq<char>)>, a: KeyView, b: KeyView)
    requires
        is_naming(names),
        name_in(names, a) is Some,
        name_in(names, a) == name_in(names, b),
    ensures
        a == b,
{
    lemma_first_where(names, has_key(a));
    lemma_first_where(names, has_key(b));
}

/// The key that has an identifier, where it is some key's.
proof fn lemma_owner(names: Seq<(KeyView, Seq<char>)>, name: Seq<char>) -> (key: KeyView)
    requires
        is_naming(names),
        is_owned(names, name),
    ensures
        name_in(names, key) == Some(name),
{
    let i = choose|i: int| 0 <= i < names.len() && (#[trigger] names[i]).1 == name;
    let key = names[i].0;
    lemma_first_where(names, has_key(key));
    assert((has_key(key))(names[i]));
    key
}

/// An identifier stays when more are given.
proof fn lemma_named_still(
    names: Seq<(KeyView, Seq<char>)>,
    more: Seq<(KeyView, Seq<char>)>,
    key: KeyView,
)
    requires
        names.len() <= more.len(),
        forall|i: int| 0 <= i < names.len() ==> #[trigger] more[i] == names[i],
        name_in(names, key) is Some,
    ensures
        name_in(more, key) == name_in(names, key),
{
    lemma_first_where(names, has_key(key));
    let at = first_where(names, has_key(key))->0;
    assert forall|i: int| 0 <= i < at implies !(has_key(key))(#[trigger] more[i]) by {
        assert(more[i] == names[i]);
    }
    assert(more[at] == names[at]);
    lemma_first_is(more, has_key(key), at);
}

/// A model whose identifiers are those of one key each leads no two keys to one column.
proof fn lemma_injective(model: ModelView)
    requires
        is_naming(model.names),
    ensures
        is_injective(model),
{
    assert forall|a: KeyView, b: KeyView| #[trigger]
        model.column(a) is Some && #[trigger] model.column(b) == model.column(a) implies a == b by {
        let (one, other) = (name_in(model.names, a)->0, name_in(model.names, b)->0);
        lemma_first_where(model.columns, has_name(one));
        lemma_first_where(model.columns, has_name(other));
        lemma_named_once(model.names, a, b);
    }
}

/// What routing one column, of `path`, makes of `before`.
spec fn is_step(
    before: DraftView,
    after: DraftView,
    model: ModelView,
    path: Seq<Seq<char>>,
) -> bool {
    let n = before.adds.len();
    &&& n <= after.adds.len() <= n + 2
    &&& after.adds.take(n as int) == before.adds
    &&& forall|j: int|
        n <= j < after.adds.len() ==> path_of((#[trigger] after.adds[j]).key) == path
            && before.model.column(after.adds[j].key) is None
    &&& after.adds.len() == n + 2 ==> after.adds[n as int].key != after.adds[n as int + 1].key
    &&& changes_only(before.model, after.model, model, path)
}

proof fn lemma_step(
    capabilities: &Capabilities,
    draft: DraftView,
    model: ModelView,
    column: ArrivingView,
)
    requires
        agrees(draft.model, model, column.path),
    ensures
        routed(capabilities, draft, column, model.created()) matches Ok((_, next)) ==> is_step(
            draft,
            next,
            model,
            column.path,
        ),
{
    lemma_routed_alone(capabilities, draft, model, column);
    if let Ok((_, next)) = routed(capabilities, draft, column, model.created()) {
        let key = KeyView::Source(column.path);
        let n = draft.adds.len() as int;
        let wider = draft.added(key, column.added_type(), !column.is_key);
        if draft.model.column(key) is None && column.hint is None {
            lemma_added_fits(wider, column, draft.width());
        }
        assert(wider.adds.take(n) =~= draft.adds);
        assert(draft.adds.take(n) =~= draft.adds);
        assert(forall|one: AddedView| (#[trigger] draft.adds.push(one)).take(n) =~= draft.adds);
        assert(forall|one: AddedView| (#[trigger] wider.adds.push(one)).take(n) =~= draft.adds);
    }
}

/// What holds of the resolution of a batch's first `n` columns.
spec fn is_history(
    draft: DraftView,
    model: ModelView,
    columns: Seq<ArrivingView>,
    n: int,
) -> bool {
    &&& is_alike(draft.model, model)
    &&& forall|j: int|
        0 <= j < draft.adds.len() ==> model.column((#[trigger] draft.adds[j]).key) is None
    &&& forall|i: int, j: int|
        0 <= i < j < draft.adds.len() ==> (#[trigger] draft.adds[i]).key != (
        #[trigger] draft.adds[j]).key
    &&& forall|j: int, m: int|
        0 <= j < draft.adds.len() && n <= m < columns.len() ==> path_of(
            (#[trigger] draft.adds[j]).key,
        ) != (#[trigger] columns[m]).path
}

proof fn lemma_history(
    capabilities: &Capabilities,
    model: ModelView,
    columns: Seq<ArrivingView>,
    n: int,
)
    requires
        0 <= n <= columns.len(),
        is_injective(model),
        are_distinct(columns),
    ensures
        routed_all(capabilities, model, columns, n) matches Ok((routes, draft)) ==> is_history(
            draft,
            model,
            columns,
            n,
        ) && routes.len() == n,
    decreases n,
{
    if n > 0 {
        lemma_history(capabilities, model, columns, n - 1);
        lemma_resolved(capabilities, model, columns, n - 1);
        if let Ok((_, draft)) = routed_all(capabilities, model, columns, n - 1) {
            let column = columns[n - 1];
            assert(agrees(draft.model, model, column.path));
            lemma_step(capabilities, draft, model, column);
            if let Ok((_, next)) = routed(capabilities, draft, column, model.created()) {
                let old = draft.adds.len() as int;
                assert forall|j: int| 0 <= j < old implies #[trigger] next.adds[j]
                    == draft.adds[j] by {
                    assert(next.adds.take(old)[j] == next.adds[j]);
                }
                assert forall|j: int| 0 <= j < next.adds.len() implies model.column(
                    (#[trigger] next.adds[j]).key,
                ) is None by {
                    if j >= old {
                        lemma_alike(draft.model, model, next.adds[j].key);
                    }
                }
                assert forall|i: int, j: int| 0 <= i < j < next.adds.len() implies (
                #[trigger] next.adds[i]).key != (#[trigger] next.adds[j]).key by {
                    if j >= old && i < old {
                        assert(path_of(draft.adds[i].key) != columns[n - 1].path);
                    }
                }
                assert forall|j: int, m: int|
                    0 <= j < next.adds.len() && n <= m < columns.len() implies path_of(
                    (#[trigger] next.adds[j]).key,
                ) != (#[trigger] columns[m]).path by {
                    if j < old {
                        assert(path_of(draft.adds[j].key) != columns[m].path);
                    } else {
                        assert(columns[n - 1].path != columns[m].path);
                    }
                }
                assert(is_alike(next.model, model));
            }
        }
    }
}

/// What the columns behind one, of `path`, leave of what it made.
spec fn is_left(
    after: DraftView,
    last: DraftView,
    model: ModelView,
    path: Seq<Seq<char>>,
) -> bool {
    let n = after.adds.len();
    &&& n <= last.adds.len()
    &&& last.adds.take(n as int) == after.adds
    &&& forall|j: int| n <= j < last.adds.len() ==> path_of((#[trigger] last.adds[j]).key) != path
    &&& is_alike(last.model, after.model)
    &&& forall|c: int|
        0 <= c < model.columns.len() && is_of(model, path, c) ==> #[trigger] last.model.columns[c]
            == after.model.columns[c]
}

proof fn lemma_left(
    capabilities: &Capabilities,
    model: ModelView,
    columns: Seq<ArrivingView>,
    k: int,
    n: int,
)
    requires
        0 <= k < n <= columns.len(),
        is_injective(model),
        are_distinct(columns),
        routed_all(capabilities, model, columns, n) is Ok,
    ensures
        routed_all(capabilities, model, columns, k) is Ok,
        routed_all(capabilities, model, columns, k + 1) is Ok,
        is_left(
            routed_all(capabilities, model, columns, k + 1)->Ok_0.1,
            routed_all(capabilities, model, columns, n)->Ok_0.1,
            model,
            columns[k].path,
        ),
        routed_all(capabilities, model, columns, n)->Ok_0.0[k] == routed_all(
            capabilities,
            model,
            columns,
            k + 1,
        )->Ok_0.0[k],
    decreases n,
{
    let last = routed_all(capabilities, model, columns, n)->Ok_0.1;
    let path = columns[k].path;
    lemma_history(capabilities, model, columns, n);
    if k + 1 == n {
        assert(last.adds.take(last.adds.len() as int) =~= last.adds);
    } else {
        lemma_left(capabilities, model, columns, k, n - 1);
        lemma_history(capabilities, model, columns, n - 1);
        lemma_history(capabilities, model, columns, k + 1);
        lemma_resolved(capabilities, model, columns, n - 1);
        let after = routed_all(capabilities, model, columns, k + 1)->Ok_0.1;
        let draft = routed_all(capabilities, model, columns, n - 1)->Ok_0.1;
        let column = columns[n - 1];
        assert(agrees(draft.model, model, column.path));
        lemma_step(capabilities, draft, model, column);
        assert(columns[k].path != columns[n - 1].path);
        let (old, first) = (draft.adds.len() as int, after.adds.len() as int);
        assert(last.adds.take(first) =~= after.adds) by {
            assert forall|j: int| 0 <= j < first implies last.adds[j] == after.adds[j] by {
                assert(last.adds.take(old)[j] == last.adds[j]);
                assert(draft.adds.take(first)[j] == draft.adds[j]);
            }
        }
        assert forall|j: int| first <= j < last.adds.len() implies path_of(
            (#[trigger] last.adds[j]).key,
        ) != path by {
            if j < old {
                assert(last.adds.take(old)[j] == last.adds[j]);
                assert(path_of(draft.adds[j].key) != path);
            }
        }
        assert forall|c: int|
            0 <= c < model.columns.len() && is_of(model, path, c) implies
            #[trigger] last.model.columns[c] == after.model.columns[c] by {
            assert(draft.model.columns[c] == after.model.columns[c]);
            if is_of(model, column.path, c) {
                let a = choose|key: KeyView|
                    path_of(key) == path && #[trigger] model.column(key) == Some(c);
                let b = choose|key: KeyView|
                    path_of(key) == column.path && #[trigger] model.column(key) == Some(c);
                assert(model.column(a) is Some && model.column(b) == model.column(a));
                assert(a == b);
            }
        }
    }
}

/// What adding columns makes of a model.
proof fn lemma_added_fields(
    model: ModelView,
    adds: Seq<AddedView>,
    names: Seq<Seq<char>>,
    n: int,
)
    requires
        0 <= n <= adds.len(),
    ensures
        ({
            let more = with_added(model, adds, names, n);
            let width = model.columns.len();
            &&& more.version == model.version
            &&& more.columns.len() == width + n
            &&& forall|c: int| 0 <= c < width ==> #[trigger] more.columns[c] == model.columns[c]
            &&& model.names.len() <= more.names.len()
            &&& forall|i: int|
                0 <= i < model.names.len() ==> #[trigger] more.names[i] == model.names[i]
            &&& forall|j: int|
                0 <= j < n ==> (#[trigger] more.columns[width + j]).logical == adds[j].logical
                    && name_in(more.names, adds[j].key) == Some(more.columns[width + j].name)
        }),
    decreases n,
{
    if n > 0 {
        lemma_added_fields(model, adds, names, n - 1);
        let before = with_added(model, adds, names, n - 1);
        let more = with_added(model, adds, names, n);
        let width = model.columns.len();
        let added = adds[n - 1];
        assert(forall|i: int|
            0 <= i < before.names.len() ==> #[trigger] more.names[i] == before.names[i]);
        assert(name_in(more.names, added.key) is Some) by {
            if name_in(before.names, added.key) is None {
                let at = before.names.len() as int;
                assert((has_key(added.key))(more.names[at]));
                lemma_first_where(more.names, has_key(added.key));
            }
        }
        assert forall|j: int| 0 <= j < n implies (#[trigger] more.columns[width + j]).logical
            == adds[j].logical && name_in(more.names, adds[j].key) == Some(
            more.columns[width + j].name,
        ) by {
            if j < n - 1 {
                assert(more.columns[width + j] == before.columns[width + j]);
                lemma_named_still(before.names, more.names, adds[j].key);
            }
        }
        assert forall|c: int| 0 <= c < width implies #[trigger] more.columns[c]
            == model.columns[c] by {
            assert(more.columns[c] == before.columns[c]);
        }
        assert forall|i: int| 0 <= i < model.names.len() implies #[trigger] more.names[i]
            == model.names[i] by {
            assert(more.names[i] == before.names[i]);
        }
    }
}

/// Whether the settled model leads `key` where `draft` put it: to the table's column, to the one
/// added for it behind the first `from`, or nowhere.
spec fn is_found(settled: ModelView, draft: DraftView, from: int, key: KeyView) -> bool {
    let width = draft.model.columns.len();
    match draft.model.column(key) {
        Some(c) => settled.column(key) == Some(c) && settled.columns[c].logical
            == draft.model.columns[c].logical,
        None => {
            &&& forall|j: int|
                from <= j < draft.adds.len() && (#[trigger] draft.adds[j]).key == key
                    ==> settled.column(key) == Some(width + j) && settled.columns[width
                    + j].logical == draft.adds[j].logical
            &&& (forall|j: int|
                from <= j < draft.adds.len() ==> (#[trigger] draft.adds[j]).key != key)
                ==> settled.column(key) is None
        },
    }
}

/// A column of the table stays where it was.
proof fn lemma_kept_column(
    model: ModelView,
    last: DraftView,
    names: Seq<Seq<char>>,
    settled: ModelView,
    key: KeyView,
)
    requires
        is_alike(last.model, model),
        settled.names == with_added(
            last.model,
            last.adds,
            names,
            last.adds.len() as int,
        ).names,
        settled.columns == with_added(
            last.model,
            last.adds,
            names,
            last.adds.len() as int,
        ).columns,
        model.column(key) is Some,
    ensures
        settled.column(key) == model.column(key),
        settled.columns[model.column(key)->0] == last.model.columns[model.column(key)->0],
        0 <= model.column(key)->0 < model.columns.len(),
{
    lemma_added_fields(last.model, last.adds, names, last.adds.len() as int);
    let name = name_in(model.names, key)->0;
    let c = model.column(key)->0;
    lemma_first_where(model.columns, has_name(name));
    lemma_named_still(model.names, settled.names, key);
    assert forall|i: int| 0 <= i < c implies !(has_name(name))(#[trigger] settled.columns[i]) by {
        assert(settled.columns[i] == last.model.columns[i]);
        assert(!(has_name(name))(model.columns[i]));
    }
    assert(settled.columns[c] == last.model.columns[c]);
    lemma_first_is(settled.columns, has_name(name), c);
}

/// A key whose identifier a settled table's column has, and that the table had no column for, is
/// that of an added column.
proof fn lemma_named_column(
    model: ModelView,
    last: DraftView,
    names: Seq<Seq<char>>,
    settled: ModelView,
    key: KeyView,
    c: int,
)
    requires
        is_alike(last.model, model),
        has_owners(model),
        settled.names == with_added(
            last.model,
            last.adds,
            names,
            last.adds.len() as int,
        ).names,
        settled.columns == with_added(
            last.model,
            last.adds,
            names,
            last.adds.len() as int,
        ).columns,
        is_naming(settled.names),
        model.column(key) is None,
        0 <= c < settled.columns.len(),
        name_in(settled.names, key) == Some(settled.columns[c].name),
    ensures
        c >= model.columns.len(),
        c - model.columns.len() < last.adds.len(),
        last.adds[c - model.columns.len()].key == key,
{
    lemma_added_fields(last.model, last.adds, names, last.adds.len() as int);
    let name = settled.columns[c].name;
    let width = model.columns.len();
    if c < width {
        assert(settled.columns[c] == last.model.columns[c]);
        assert(model.columns[c].name == name);
        assert(is_owned(model.names, model.columns[c].name));
        assert(is_naming(model.names)) by {
            assert forall|i: int, j: int| 0 <= i < j < model.names.len() implies (
            #[trigger] model.names[i]).0 != (#[trigger] model.names[j]).0 && model.names[i].1
                != model.names[j].1 by {
                assert(settled.names[i] == model.names[i]);
                assert(settled.names[j] == model.names[j]);
            }
        }
        let owner = lemma_owner(model.names, name);
        lemma_named_still(model.names, settled.names, owner);
        lemma_named_once(settled.names, owner, key);
        lemma_first_where(model.columns, has_name(name));
        assert((has_name(name))(model.columns[c]));
    } else {
        let j = c - width;
        assert(settled.columns[width + j].name == name);
        lemma_named_once(settled.names, last.adds[j].key, key);
    }
}

/// An added column stands behind the table's, where it was added.
proof fn lemma_new_column(
    model: ModelView,
    last: DraftView,
    names: Seq<Seq<char>>,
    settled: ModelView,
    j: int,
)
    requires
        is_alike(last.model, model),
        has_owners(model),
        settled.names == with_added(
            last.model,
            last.adds,
            names,
            last.adds.len() as int,
        ).names,
        settled.columns == with_added(
            last.model,
            last.adds,
            names,
            last.adds.len() as int,
        ).columns,
        is_naming(settled.names),
        0 <= j < last.adds.len(),
        model.column(last.adds[j].key) is None,
        forall|a: int, b: int|
            0 <= a < b < last.adds.len() ==> (#[trigger] last.adds[a]).key != (
            #[trigger] last.adds[b]).key,
    ensures
        settled.column(last.adds[j].key) == Some(model.columns.len() + j),
        settled.columns[model.columns.len() + j].logical == last.adds[j].logical,
{
    lemma_added_fields(last.model, last.adds, names, last.adds.len() as int);
    let key = last.adds[j].key;
    let width = model.columns.len();
    let at = width + j;
    let name = settled.columns[at].name;
    assert(name_in(settled.names, key) == Some(name));
    assert forall|i: int| 0 <= i < at implies !(has_name(name))(#[trigger] settled.columns[i]) by {
        if (has_name(name))(settled.columns[i]) {
            lemma_named_column(model, last, names, settled, key, i);
            assert(last.adds[i - width].key != last.adds[j].key);
        }
    }
    lemma_first_is(settled.columns, has_name(name), at as int);
}

/// The settled model leads every key of a batch's column where its routing put it.
proof fn lemma_found(
    capabilities: &Capabilities,
    model: ModelView,
    columns: Seq<ArrivingView>,
    names: Seq<Seq<char>>,
    settled: ModelView,
    k: int,
    key: KeyView,
)
    requires
        0 <= k < columns.len(),
        is_injective(model),
        are_distinct(columns),
        has_owners(model),
        routed_all(capabilities, model, columns, columns.len() as int) is Ok,
        ({
            let last = routed_all(capabilities, model, columns, columns.len() as int)->Ok_0.1;
            let more = with_added(last.model, last.adds, names, last.adds.len() as int);
            settled.names == more.names && settled.columns == more.columns
        }),
        is_naming(settled.names),
        path_of(key) == columns[k].path,
    ensures
        is_found(
            settled,
            routed_all(capabilities, model, columns, k + 1)->Ok_0.1,
            routed_all(capabilities, model, columns, k)->Ok_0.1.adds.len() as int,
            key,
        ),
{
    let n = columns.len() as int;
    lemma_left(capabilities, model, columns, k, n);
    lemma_history(capabilities, model, columns, k);
    lemma_history(capabilities, model, columns, k + 1);
    lemma_history(capabilities, model, columns, n);
    let last = routed_all(capabilities, model, columns, n)->Ok_0.1;
    let before = routed_all(capabilities, model, columns, k)->Ok_0.1;
    let after = routed_all(capabilities, model, columns, k + 1)->Ok_0.1;
    let from = before.adds.len() as int;
    let width = model.columns.len();
    lemma_resolved(capabilities, model, columns, k);
    assert(agrees(before.model, model, columns[k].path));
    lemma_step(capabilities, before, model, columns[k]);
    lemma_alike(after.model, model, key);
    assert forall|j: int| 0 <= j < after.adds.len() implies #[trigger] after.adds[j]
        == last.adds[j] by {
        assert(last.adds.take(after.adds.len() as int)[j] == last.adds[j]);
    }
    if let Some(c) = model.column(key) {
        lemma_kept_column(model, last, names, settled, key);
        assert(is_of(model, columns[k].path, c));
        assert(last.model.columns[c] == after.model.columns[c]);
    } else {
        assert forall|j: int|
            from <= j < after.adds.len() && (#[trigger] after.adds[j]).key == key implies
            settled.column(key) == Some(width + j) && settled.columns[width + j].logical
            == after.adds[j].logical by {
            assert(last.adds[j].key == key);
            lemma_new_column(model, last, names, settled, j);
        }
        if forall|j: int| from <= j < after.adds.len() ==> (#[trigger] after.adds[j]).key != key {
            if settled.column(key) is Some {
                let name = name_in(settled.names, key)->0;
                lemma_first_where(settled.columns, has_name(name));
                let c = settled.column(key)->0;
                lemma_named_column(model, last, names, settled, key, c);
                let j = c - width;
                if j < from {
                    assert(before.adds[j] == after.adds[j]) by {
                        assert(after.adds.take(from)[j] == after.adds[j]);
                    }
                    assert(path_of(before.adds[j].key) != columns[k].path);
                } else if j < after.adds.len() {
                    assert(after.adds[j].key == key);
                } else {
                    assert(path_of(last.adds[j].key) != columns[k].path);
                }
            }
        }
    }
}

/// Every kind is among the kinds.
proof fn lemma_kind_is_one(kind: TypeKind) -> (at: int)
    ensures
        0 <= at < kinds().len(),
        kinds()[at] == kind,
{
    match kind {
        TypeKind::Null => 0,
        TypeKind::Bool => 1,
        TypeKind::Int8 => 2,
        TypeKind::Int16 => 3,
        TypeKind::Int32 => 4,
        TypeKind::Int64 => 5,
        TypeKind::Float32 => 6,
        TypeKind::Float64 => 7,
        TypeKind::Decimal => 8,
        TypeKind::Utf8 => 9,
        TypeKind::Binary => 10,
        TypeKind::Date => 11,
        TypeKind::Time => 12,
        TypeKind::Timestamp => 13,
        TypeKind::Duration => 14,
        TypeKind::Uuid => 15,
        TypeKind::Json => 16,
        TypeKind::Struct => 17,
        TypeKind::List => 18,
    }
}

/// The key of the variant of `path` of `kind`.
spec fn variant_key(path: Seq<Seq<char>>, kind: TypeKind) -> KeyView {
    KeyView::Variant { column: path, kind }
}

/// The variants of a path are those of the kinds that have one.
proof fn lemma_variants_have_kinds(model: ModelView, path: Seq<Seq<char>>, n: int)
    requires
        0 <= n <= kinds().len(),
    ensures
        forall|i: int|
            0 <= i < variants(model, path, n).len() ==> exists|kind: TypeKind|
                model.column(#[trigger] variant_key(path, kind)) == Some(
                    #[trigger] variants(model, path, n)[i],
                ),
        forall|k: int|
            0 <= k < n ==> (model.column(variant_key(path, #[trigger] kinds()[k])) matches Some(c)
                ==> variants(model, path, n).contains(c)),
    decreases n,
{
    if n > 0 {
        lemma_variants_have_kinds(model, path, n - 1);
        let before = variants(model, path, n - 1);
        let now = variants(model, path, n);
        let key = variant_key(path, kinds()[n - 1]);
        assert forall|i: int| 0 <= i < now.len() implies exists|kind: TypeKind|
            model.column(#[trigger] variant_key(path, kind)) == Some(#[trigger] now[i]) by {
            if i < before.len() {
                assert(now[i] == before[i]);
            } else {
                assert(model.column(variant_key(path, kinds()[n - 1])) == Some(now[i]));
            }
        }
        assert forall|k: int| 0 <= k < n implies (model.column(
            variant_key(path, #[trigger] kinds()[k]),
        ) matches Some(c) ==> now.contains(c)) by {
            if let Some(c) = model.column(variant_key(path, kinds()[k])) {
                if k < n - 1 {
                    let i = choose|i: int| 0 <= i < before.len() && before[i] == c;
                    assert(now[i] == c);
                } else {
                    assert(now[before.len() as int] == c);
                }
            }
        }
    }
}

/// Models that lead the variants of a path alike have the same variants of it.
proof fn lemma_same_variants(one: ModelView, other: ModelView, path: Seq<Seq<char>>, n: int)
    requires
        0 <= n <= kinds().len(),
        forall|kind: TypeKind| one.column(#[trigger] variant_key(path, kind)) == other.column(
            variant_key(path, kind),
        ),
    ensures
        variants(one, path, n) == variants(other, path, n),
    decreases n,
{
    if n > 0 {
        lemma_same_variants(one, other, path, n - 1);
        let key = variant_key(path, kinds()[n - 1]);
        assert(one.column(key) == other.column(key));
    }
}

/// Whether, of a column's own column at `original` and its variants, the settled ones that
/// `column` fits are those it fitted in `draft`.
spec fn fits_alike(
    draft: DraftView,
    settled: DraftView,
    column: ArrivingView,
    again: ArrivingView,
    original: int,
) -> bool {
    &&& settled.column_type(original) == draft.column_type(original)
    &&& again.join(settled, original) == column.join(draft, original)
    &&& forall|kind: TypeKind|
        settled.model.column(#[trigger] variant_key(column.path, kind)) == draft.model.column(
            variant_key(column.path, kind),
        )
    &&& forall|kind: TypeKind|
        draft.model.column(#[trigger] variant_key(column.path, kind)) matches Some(c)
            ==> settled.column_type(c) == draft.column_type(c) && again.join(settled, c)
            == column.join(draft, c)
}

/// Where two of a kind pick the same items, the first of them is the same.
proof fn lemma_first_alike<T>(items: Seq<T>, one: spec_fn(T) -> bool, two: spec_fn(T) -> bool)
    requires
        forall|i: int| 0 <= i < items.len() ==> one(#[trigger] items[i]) == two(items[i]),
    ensures
        first_where(items, one) == first_where(items, two),
{
    lemma_first_where(items, one);
    lemma_first_where(items, two);
    if let Some(at) = first_where(items, one) {
        assert(two(items[at]));
    }
    if let Some(at) = first_where(items, two) {
        assert(one(items[at]));
    }
}

/// A kind whose variant stands among the others at `i`.
proof fn lemma_variant_at(model: ModelView, path: Seq<Seq<char>>, i: int) -> (kind: TypeKind)
    requires
        0 <= i < variants(model, path, kinds().len() as int).len(),
    ensures
        model.column(variant_key(path, kind)) == Some(
            variants(model, path, kinds().len() as int)[i],
        ),
{
    let others = variants(model, path, kinds().len() as int);
    lemma_variants_have_kinds(model, path, kinds().len() as int);
    choose|kind: TypeKind|
        model.column(#[trigger] variant_key(path, kind)) == Some(others[i])
}

proof fn lemma_fitting_again(
    draft: DraftView,
    settled: DraftView,
    column: ArrivingView,
    again: ArrivingView,
    original: int,
)
    requires
        again.path == column.path,
        fits_alike(draft, settled, column, again, original),
    ensures
        again.fitting(settled, original) == column.fitting(draft, original),
{
    let all = candidates(draft.model, column.path, original);
    let others = variants(draft.model, column.path, kinds().len() as int);
    let (one, two) = (column.fits(draft), again.fits(settled));
    lemma_same_variants(settled.model, draft.model, column.path, kinds().len() as int);
    assert forall|i: int| 0 <= i < all.len() implies one(#[trigger] all[i]) == two(all[i]) by {
        if i > 0 {
            assert(all[i] == others[i - 1]);
            let kind = lemma_variant_at(draft.model, column.path, i - 1);
            assert(draft.model.column(variant_key(column.path, kind)) == Some(all[i]));
        }
    }
    lemma_first_alike(all, one, two);
}

/// A column that is placed without a change is placed there again.
proof fn lemma_unchanged_again(
    capabilities: &Capabilities,
    draft: DraftView,
    settled: DraftView,
    column: ArrivingView,
    again: ArrivingView,
    original: int,
)
    requires
        again == (ArrivingView { joins: again.joins, ..column }),
        fits_alike(draft, settled, column, again, original),
        placed(capabilities, draft, column, original) matches Ok((_, next)) && next == draft,
    ensures
        placed(capabilities, settled, again, original) == Ok::<(Route, DraftView), CauseView>(
            (placed(capabilities, draft, column, original)->Ok_0.0, settled),
        ),
{
    lemma_fitting_again(draft, settled, column, again, original);
    let joined = column.join(draft, original);
    let key = variant_key(column.path, joined.kind());
    let json = variant_key(column.path, TypeKind::Json);
    assert(settled.model.column(key) == draft.model.column(key));
    assert(settled.model.column(json) == draft.model.column(json));
    let (_, next) = placed(capabilities, draft, column, original)->Ok_0;
    assert(draft.widened(original, joined).changes.len() != draft.changes.len());
    if let Some(existing) = draft.model.column(key) {
        assert(draft.widened(existing, column.join(draft, existing)).changes.len()
            != draft.changes.len());
    }
    assert(draft.added(key, joined, true).changes.len() != draft.changes.len());
    assert(draft.added(json, TypeView::Json, true).changes.len() != draft.changes.len());
}

/// Where one column alone, of a column's own and its variants, holds its values, they go there.
proof fn lemma_only_fit(
    settled: DraftView,
    again: ArrivingView,
    original: int,
    kind: TypeKind,
    target: int,
)
    requires
        settled.model.column(variant_key(again.path, kind)) == Some(target),
        (again.fits(settled))(target),
        original != target ==> !(again.fits(settled))(original),
        forall|other: TypeKind|
            settled.model.column(#[trigger] variant_key(again.path, other)) matches Some(c) ==> (c
                != target ==> !(again.fits(settled))(c)),
    ensures
        again.fitting(settled, original) == Some(target),
{
    let n = kinds().len() as int;
    lemma_variants_have_kinds(settled.model, again.path, n);
    let all = candidates(settled.model, again.path, original);
    let others = variants(settled.model, again.path, n);
    let fits = again.fits(settled);
    lemma_first_where(all, fits);
    let at = lemma_kind_is_one(kind);
    assert(settled.model.column(variant_key(again.path, kinds()[at])) == Some(target));
    assert(others.contains(target));
    let i = choose|i: int| 0 <= i < others.len() && others[i] == target;
    assert(all[i + 1] == target);
    assert(fits(all[i + 1]));
    let found = first_where(all, fits)->0;
    if found > 0 {
        assert(all[found] == others[found - 1]);
        let other = lemma_variant_at(settled.model, again.path, found - 1);
        assert(settled.model.column(variant_key(again.path, other)) == Some(all[found]));
    }
}

/// What is known of a column that was placed in `draft`, with the changes of `next`, once they are
/// made.
spec fn is_settled(
    join: spec_fn(TypeView, TypeView) -> TypeView,
    draft: DraftView,
    next: DraftView,
    settled: ModelView,
    column: ArrivingView,
    original: int,
) -> bool {
    let width = draft.model.columns.len();
    &&& is_join(join)
    &&& is_own_column(draft, column, original)
    &&& column.join(draft, original) == join(draft.column_type(original), column.logical)
    &&& 0 <= original < settled.columns.len()
    &&& settled.columns[original].logical == next.column_type(original)
    &&& is_alike(next.model, draft.model)
    &&& forall|kind: TypeKind|
        is_found(
            settled,
            next,
            draft.adds.len() as int,
            #[trigger] variant_key(column.path, kind),
        )
    &&& forall|kind: TypeKind|
        draft.model.column(#[trigger] variant_key(column.path, kind)) matches Some(c)
            ==> c != original && column.join(draft, c) == join(
            draft.model.columns[c].logical,
            column.logical,
        )
}

/// What a settled table's columns and a column's joins with them are.
proof fn lemma_rejoined(
    join: spec_fn(TypeView, TypeView) -> TypeView,
    settled: ModelView,
    column: ArrivingView,
    c: int,
)
    requires
        0 <= c < settled.columns.len(),
    ensures
        rejoined(join, settled, column).join(untouched(settled), c) == join(
            settled.columns[c].logical,
            column.logical,
        ),
        untouched(settled).column_type(c) == settled.columns[c].logical,
{
}

proof fn lemma_unchanged(
    capabilities: &Capabilities,
    join: spec_fn(TypeView, TypeView) -> TypeView,
    draft: DraftView,
    settled: ModelView,
    column: ArrivingView,
    original: int,
)
    requires
        is_settled(join, draft, draft, settled, column, original),
        placed(capabilities, draft, column, original) matches Ok((_, next)) && next == draft,
    ensures
        placed(
            capabilities,
            untouched(settled),
            rejoined(join, settled, column),
            original,
        ) == Ok::<(Route, DraftView), CauseView>(
            (placed(capabilities, draft, column, original)->Ok_0.0, untouched(settled)),
        ),
{
    let again = rejoined(join, settled, column);
    let after = untouched(settled);
    lemma_rejoined(join, settled, column, original);
    assert forall|kind: TypeKind| after.model.column(
        #[trigger] variant_key(column.path, kind),
    ) == draft.model.column(variant_key(column.path, kind)) by {
        assert(is_found(
            settled,
            draft,
            draft.adds.len() as int,
            variant_key(column.path, kind),
        ));
    }
    assert forall|kind: TypeKind|
        draft.model.column(#[trigger] variant_key(column.path, kind)) is Some implies {
        let c = draft.model.column(variant_key(column.path, kind))->0;
        after.column_type(c) == draft.column_type(c) && again.join(after, c) == column.join(draft, c)
    } by {
        let key = variant_key(column.path, kind);
        let c = draft.model.column(key)->0;
        assert(is_found(settled, draft, draft.adds.len() as int, key));
        lemma_column_is_one(settled, key);
        lemma_column_is_one(draft.model, key);
        lemma_rejoined(join, settled, column, c);
    }
    assert(fits_alike(draft, after, column, again, original));
    lemma_unchanged_again(capabilities, draft, after, column, again, original);
}

/// Nothing that did not hold a column's values holds them once another column is changed for them.
proof fn lemma_others_still_do_not(
    join: spec_fn(TypeView, TypeView) -> TypeView,
    draft: DraftView,
    next: DraftView,
    settled: ModelView,
    column: ArrivingView,
    original: int,
    kind: TypeKind,
    target: int,
)
    requires
        is_settled(join, draft, next, settled, column, original),
        column.fitting(draft, original) is None,
        target != original,
        next.column_type(original) == draft.column_type(original),
        forall|c: int|
            0 <= c < draft.model.columns.len() && c != target ==> #[trigger] next.model.columns[c]
                == draft.model.columns[c],
        forall|j: int|
            draft.adds.len() <= j < next.adds.len() ==> (#[trigger] next.adds[j]).key
                == variant_key(column.path, kind) && draft.model.columns.len() + j == target,
        settled.column(variant_key(column.path, kind)) == Some(target),
        settled.columns[target].logical == join(settled.columns[target].logical, column.logical),
    ensures
        rejoined(join, settled, column).fitting(untouched(settled), original) == Some(target),
{
    let again = rejoined(join, settled, column);
    let after = untouched(settled);
    let n = kinds().len() as int;
    let all = candidates(draft.model, column.path, original);
    let others = variants(draft.model, column.path, n);
    lemma_first_where(all, column.fits(draft));
    lemma_variants_have_kinds(draft.model, column.path, n);
    lemma_rejoined(join, settled, column, original);
    lemma_column_is_one(settled, variant_key(column.path, kind));
    lemma_rejoined(join, settled, column, target);
    assert(all[0] == original);
    assert(!(column.fits(draft))(all[0]));
    assert(!(again.fits(after))(original));
    assert forall|other: TypeKind|
        after.model.column(#[trigger] variant_key(again.path, other)) is Some && after.model.column(
            variant_key(again.path, other),
        )->0 != target implies !(again.fits(after))(
        after.model.column(variant_key(again.path, other))->0,
    ) by {
        let key = variant_key(column.path, other);
        let c = settled.column(key)->0;
        assert(is_found(settled, next, draft.adds.len() as int, key));
        lemma_alike(next.model, draft.model, key);
        lemma_column_is_one(settled, key);
        lemma_column_is_one(draft.model, key);
        lemma_rejoined(join, settled, column, c);
        if draft.model.column(key) is Some {
            assert(draft.model.column(key) == Some(c));
            let at = lemma_kind_is_one(other);
            assert(draft.model.column(variant_key(column.path, kinds()[at])) == Some(c));
            assert(others.contains(c));
            let i = choose|i: int| 0 <= i < others.len() && others[i] == c;
            assert(all[i + 1] == c);
            assert(!(column.fits(draft))(all[i + 1]));
            assert(next.model.columns[c] == draft.model.columns[c]);
        } else {
            if forall|j: int|
                draft.adds.len() <= j < next.adds.len() ==> (#[trigger] next.adds[j]).key != key {
                assert(settled.column(key) is None);
            } else {
                let j = choose|j: int|
                    draft.adds.len() <= j < next.adds.len() && (#[trigger] next.adds[j]).key
                        == key;
                assert(settled.column(key) == Some(draft.model.columns.len() + j));
            }
        }
    }
    lemma_only_fit(after, again, original, kind, target);
}

/// A column is placed where it was once the changes that took are made.
proof fn lemma_placed_again(
    capabilities: &Capabilities,
    join: spec_fn(TypeView, TypeView) -> TypeView,
    draft: DraftView,
    next: DraftView,
    settled: ModelView,
    column: ArrivingView,
    original: int,
    route: Route,
)
    requires
        is_settled(join, draft, next, settled, column, original),
        placed(capabilities, draft, column, original) == Ok::<(Route, DraftView), CauseView>(
            (route, next),
        ),
    ensures
        placed(
            capabilities,
            untouched(settled),
            rejoined(join, settled, column),
            original,
        ) == Ok::<(Route, DraftView), CauseView>((route, untouched(settled))),
{
    let again = rejoined(join, settled, column);
    let after = untouched(settled);
    let width = draft.model.columns.len() as int;
    let current = draft.column_type(original);
    let joined = column.join(draft, original);
    let widens = column.hint is None && joined != TypeView::Json && widens_in_place(
        capabilities,
        current,
        joined,
        column.nested,
    );
    lemma_rejoined(join, settled, column, original);
    assert(takes_in(join, current, column.logical));
    if column.fitting(draft, original) is Some || (!column.is_key && (column.policy
        == SchemaPolicy::DiscardRow || column.policy == SchemaPolicy::DiscardValue)) {
        lemma_unchanged(capabilities, join, draft, settled, column, original);
    } else if widens {
        if original >= width {
            lemma_added_fits(draft, column, original);
        }
        assert(next.column_type(original) == joined);
        let all = candidates(settled, column.path, original);
        assert(all[0] == original);
        assert((again.fits(after))(all[0]));
        lemma_first_is(all, again.fits(after), 0);
    } else {
        let key = variant_key(column.path, joined.kind());
        let json = variant_key(column.path, TypeKind::Json);
        let n = draft.adds.len() as int;
        lemma_alike(next.model, draft.model, key);
        lemma_alike(next.model, draft.model, json);
        lemma_column_is_one(draft.model, key);
        assert(is_found(settled, next, n, key));
        assert(is_found(settled, next, n, json));
        assert(holds_itself(join, column.logical));
        match draft.model.column(key) {
            None => {
                assert(next == draft.added(key, joined, true));
                assert(next.adds[n].key == key);
                lemma_others_still_do_not(
                    join,
                    draft,
                    next,
                    settled,
                    column,
                    original,
                    joined.kind(),
                    width + n,
                );
            },
            Some(existing) => {
                let wider = column.join(draft, existing);
                assert(takes_in(join, draft.model.columns[existing].logical, column.logical));
                if wider != TypeView::Json && wider.kind() == joined.kind() && widens_in_place(
                    capabilities,
                    draft.column_type(existing),
                    wider,
                    column.nested,
                ) {
                    assert(next == draft.widened(existing, wider));
                    assert(next.column_type(original) == draft.column_type(original));
                    lemma_others_still_do_not(
                        join,
                        draft,
                        next,
                        settled,
                        column,
                        original,
                        joined.kind(),
                        existing,
                    );
                } else if draft.model.column(json) is Some {
                    lemma_unchanged(capabilities, join, draft, settled, column, original);
                } else {
                    assert(next == draft.added(json, TypeView::Json, true));
                    assert(next.adds[n].key == json);
                    lemma_others_still_do_not(
                        join,
                        draft,
                        next,
                        settled,
                        column,
                        original,
                        TypeKind::Json,
                        width + n,
                    );
                }
            },
        }
    }
}

/// A column goes where it went once the changes that took are made.
proof fn lemma_routed_again(
    capabilities: &Capabilities,
    join: spec_fn(TypeView, TypeView) -> TypeView,
    model: ModelView,
    draft: DraftView,
    next: DraftView,
    settled: ModelView,
    column: ArrivingView,
    route: Route,
)
    requires
        is_join(join),
        is_injective(model),
        is_joined(join, model, column),
        agrees(draft.model, model, column.path),
        routed(capabilities, draft, column, model.created()) == Ok::<
            (Route, DraftView),
            CauseView,
        >((route, next)),
        is_step(draft, next, model, column.path),
        forall|key: KeyView| #[trigger]
            path_of(key) == column.path ==> is_found(
                settled,
                next,
                draft.adds.len() as int,
                key,
            ),
        model.created() ==> settled.created(),
    ensures
        routed(
            capabilities,
            untouched(settled),
            rejoined(join, settled, column),
            settled.created(),
        ) == Ok::<(Route, DraftView), CauseView>((route, untouched(settled))),
{
    let key = KeyView::Source(column.path);
    let n = draft.adds.len() as int;
    let width = draft.model.columns.len() as int;
    assert(path_of(key) == column.path);
    assert(is_found(settled, next, n, key));
    lemma_alike(draft.model, model, key);
    lemma_alike(next.model, draft.model, key);
    lemma_column_is_one(draft.model, key);
    lemma_column_is_one(settled, key);
    let source = draft.model.column(key);
    if column.logical != TypeView::Null && (source is Some || admitted(
        capabilities,
        column,
        model.created(),
    ) == Ok::<Option<Route>, CauseView>(None)) {
        let wider = draft.added(key, column.added_type(), !column.is_key);
        let (made, original) = if source is Some {
            (draft, source->0)
        } else {
            (wider, draft.width())
        };
        assert(made.model == draft.model);
        assert(placed(capabilities, made, column, original) == Ok::<(Route, DraftView), CauseView>(
            (route, next),
        ));
        if source is None {
            if column.hint is None {
                lemma_added_fits(wider, column, original);
            }
            assert(wider.adds[n].key == key);
            assert(next.adds[n] == wider.adds[n]);
            assert(holds_itself(join, column.logical));
        }
        assert forall|kind: TypeKind| is_found(
            settled,
            next,
            made.adds.len() as int,
            #[trigger] variant_key(column.path, kind),
        ) by {
            let variant = variant_key(column.path, kind);
            assert(path_of(variant) == column.path);
            assert(is_found(settled, next, n, variant));
            if source is None && next.model.column(variant) is None && (forall|j: int|
                made.adds.len() <= j < next.adds.len() ==> (#[trigger] next.adds[j]).key != variant) {
                assert forall|j: int| n <= j < next.adds.len() implies (#[trigger] next.adds[j]).key
                    != variant by {
                    if j == n {
                        assert(next.adds[n].key == key);
                    }
                }
            }
        }
        assert forall|kind: TypeKind|
            made.model.column(#[trigger] variant_key(column.path, kind)) is Some implies {
            let c = made.model.column(variant_key(column.path, kind))->0;
            c != original && column.join(made, c) == join(made.model.columns[c].logical, column.logical)
        } by {
            let variant = variant_key(column.path, kind);
            lemma_alike(draft.model, model, variant);
            lemma_column_is_one(model, variant);
            let c = model.column(variant)->0;
            assert(path_of(variant) == column.path && model.column(variant) == Some(c));
            assert(is_of(model, column.path, c));
            assert(draft.model.columns[c] == model.columns[c]);
            assert(column.joins[c] == join(model.columns[c].logical, column.logical));
            if c == original {
                assert(model.column(variant) is Some && model.column(key) == model.column(variant));
                assert(variant == key);
            }
        }
        if source is Some {
            assert(path_of(key) == column.path && model.column(key) == Some(original));
            assert(is_of(model, column.path, original));
            assert(draft.model.columns[original] == model.columns[original]);
            assert(column.joins[original] == join(model.columns[original].logical, column.logical));
        }
        assert(is_alike(next.model, made.model));
        assert(is_settled(join, made, next, settled, column, original));
        lemma_placed_again(capabilities, join, made, next, settled, column, original, route);
    }
}

/// The first `n` columns of a batch go where they went once the changes it needs are made.
proof fn lemma_all_again(
    capabilities: &Capabilities,
    join: spec_fn(TypeView, TypeView) -> TypeView,
    model: ModelView,
    columns: Seq<ArrivingView>,
    names: Seq<Seq<char>>,
    settled: ModelView,
    n: int,
)
    requires
        0 <= n <= columns.len(),
        is_join(join),
        is_injective(model),
        are_distinct(columns),
        has_owners(model),
        forall|i: int| 0 <= i < columns.len() ==> is_joined(join, model, #[trigger] columns[i]),
        routed_all(capabilities, model, columns, columns.len() as int) is Ok,
        ({
            let last = routed_all(capabilities, model, columns, columns.len() as int)->Ok_0.1;
            let more = with_added(last.model, last.adds, names, last.adds.len() as int);
            settled.names == more.names && settled.columns == more.columns
        }),
        is_naming(settled.names),
        model.created() ==> settled.created(),
    ensures
        routed_all(capabilities, settled, all_rejoined(join, settled, columns), n) == Ok::<
            (Seq<Route>, DraftView),
            (int, CauseView),
        >(
            (
                routed_all(capabilities, model, columns, columns.len() as int)->Ok_0.0.take(n),
                untouched(settled),
            ),
        ),
    decreases n,
{
    let all = columns.len() as int;
    let routes = routed_all(capabilities, model, columns, all)->Ok_0.0;
    lemma_history(capabilities, model, columns, all);
    if n > 0 {
        let k = n - 1;
        lemma_all_again(capabilities, join, model, columns, names, settled, k);
        lemma_left(capabilities, model, columns, k, all);
        lemma_resolved(capabilities, model, columns, k);
        lemma_history(capabilities, model, columns, k);
        let before = routed_all(capabilities, model, columns, k)->Ok_0.1;
        let after = routed_all(capabilities, model, columns, k + 1)->Ok_0.1;
        let column = columns[k];
        assert(agrees(before.model, model, column.path));
        lemma_step(capabilities, before, model, column);
        let route = routed(capabilities, before, column, model.created())->Ok_0.0;
        assert(routes[k] == route);
        assert forall|key: KeyView| #[trigger] path_of(key) == column.path implies is_found(
            settled,
            after,
            before.adds.len() as int,
            key,
        ) by {
            lemma_found(capabilities, model, columns, names, settled, k, key);
        }
        lemma_routed_again(capabilities, join, model, before, after, settled, column, route);
        assert(all_rejoined(join, settled, columns)[k] == rejoined(join, settled, column));
        assert(routes.take(n) =~= routes.take(k).push(route));
    } else {
        assert(routes.take(0) =~= Seq::<Route>::empty());
    }
}

/// Once its changes apply, a batch fits its table: resolving it again, against the model they made,
/// changes nothing, sends every column where it went, and leaves the model, its version
/// included, as it is. That rests on joins that hold what they took in, on identifiers that are one
/// key's each, and on a table whose every column is some key's.
pub proof fn law_resolved_batches_fit(
    capabilities: &Capabilities,
    join: spec_fn(TypeView, TypeView) -> TypeView,
    model: ModelView,
    columns: Seq<ArrivingView>,
    names: Seq<Seq<char>>,
    normalized: bool,
    given: Seq<Seq<char>>,
)
    requires
        is_join(join),
        forall|i: int| 0 <= i < columns.len() ==> is_joined(join, model, #[trigger] columns[i]),
        are_distinct(columns),
        has_owners(model),
        model.version < u32::MAX,
        routed_all(capabilities, model, columns, columns.len() as int) matches Ok((_, draft))
            ==> is_naming(resolved_model(draft, names, normalized).names),
    ensures
        routed_all(capabilities, model, columns, columns.len() as int) matches Ok((routes, draft))
            ==> {
            let settled = resolved_model(draft, names, normalized);
            &&& routes.len() == columns.len()
            &&& routed_all(
                capabilities,
                settled,
                all_rejoined(join, settled, columns),
                columns.len() as int,
            ) == Ok::<(Seq<Route>, DraftView), (int, CauseView)>((routes, untouched(settled)))
            &&& resolved_model(untouched(settled), given, normalized) == settled
        },
{
    let all = columns.len() as int;
    if let Ok((routes, draft)) = routed_all(capabilities, model, columns, all) {
        let settled = resolved_model(draft, names, normalized);
        lemma_added_fields(draft.model, draft.adds, names, draft.adds.len() as int);
        crate::table::resolve::law_columns_stay(capabilities, model, columns, names, normalized);
        assert(is_naming(model.names)) by {
            assert forall|i: int, j: int| 0 <= i < j < model.names.len() implies (
            #[trigger] model.names[i]).0 != (#[trigger] model.names[j]).0 && model.names[i].1
                != model.names[j].1 by {
                assert(settled.names[i] == model.names[i]);
                assert(settled.names[j] == model.names[j]);
            }
        }
        lemma_injective(model);
        lemma_history(capabilities, model, columns, all);
        crate::table::resolve::lemma_all_keep(capabilities, model, columns, all);
        lemma_all_again(capabilities, join, model, columns, names, settled, all);
        assert(routes.take(all) =~= routes);
    }
}

/// Resolving a batch, and naming what it adds, and then resolving the batch again against the model
/// that made, gives no changes, the same routes, one for each column, and the same model at the same
/// version: what two calls of the resolver give is related so.
pub proof fn law_resolving_again_changes_nothing(
    capabilities: &Capabilities,
    join: spec_fn(TypeView, TypeView) -> TypeView,
    model: ModelView,
    columns: Seq<Arriving>,
    first: Unnamed,
    names: Seq<String>,
    normalized: bool,
    made: Resolution,
    again: Seq<Arriving>,
    second: Result<Unnamed, Refused>,
    given: Seq<String>,
    settled: Resolution,
)
    requires
        is_join(join),
        forall|i: int|
            0 <= i < columns.len() ==> is_joined(join, model, #[trigger] arriving_views(columns)[i]),
        are_distinct(arriving_views(columns)),
        has_owners(model),
        model.version < u32::MAX,
        is_resolution(capabilities, model, columns, Ok(first)),
        is_finished(first, names, normalized, made),
        is_naming(made.model@.names),
        arriving_views(again) == all_rejoined(join, made.model@, arriving_views(columns)),
        is_resolution(capabilities, made.model@, again, second),
        second matches Ok(second) ==> is_finished(second, given, normalized, settled),
    ensures
        first.routes@.len() == columns.len(),
        second is Ok,
        settled.changes@.len() == 0,
        settled.routes@ == first.routes@,
        settled.model@ == made.model@,
{
    let views = arriving_views(columns);
    law_resolved_batches_fit(
        capabilities,
        join,
        model,
        views,
        crate::table::model::texts(names),
        normalized,
        crate::table::model::texts(given),
    );
    assert(arriving_views(again).len() == again.len());
    assert(again.len() == columns.len());
    assert(second is Ok);
    let twice = second->Ok_0;
    assert(twice.draft@ == untouched(made.model@));
    assert(change_views(settled.changes@).len() == settled.changes@.len());
}

} // verus!
