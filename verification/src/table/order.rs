//! Resolution does not depend on the order of a batch's columns.

use crate::search::lemma_first_where;
use crate::table::lower::Capabilities;
use crate::table::model::{has_name, name_in, KeyView, ModelView};
use crate::table::resolve::{
    are_distinct, candidates, kinds, lemma_column_is_one, placed, routed, routed_all, variants,
    AddedView, ArrivingView, CauseView, DraftView,
};
use crate::table::types::TypeView;
use vstd::prelude::*;

verus! {

/// The source column `key` is for.
pub open spec fn path_of(key: KeyView) -> Seq<Seq<char>> {
    match key {
        KeyView::Source(path) => path,
        KeyView::Variant { column, .. } => column,
    }
}

/// Whether no two keys lead to one column.
pub open spec fn is_injective(model: ModelView) -> bool {
    forall|a: KeyView, b: KeyView| #[trigger]
        model.column(a) is Some && #[trigger] model.column(b) == model.column(a) ==> a == b
}

/// A resolution of `model` that changes nothing yet.
pub open spec fn untouched(model: ModelView) -> DraftView {
    DraftView { model, adds: Seq::empty(), changes: Seq::empty() }
}

/// What becomes of `column` on its own.
pub open spec fn alone(capabilities: &Capabilities, model: ModelView, column: ArrivingView) -> Result<
    Seq<AddedView>,
    CauseView,
> {
    match routed(capabilities, untouched(model), column, model.created()) {
        Ok((_, draft)) => Ok(draft.adds),
        Err(cause) => Err(cause),
    }
}

/// Whether the table's column at `at` is one of those of `path`.
pub open spec fn is_of(model: ModelView, path: Seq<Seq<char>>, at: int) -> bool {
    exists|key: KeyView| path_of(key) == path && #[trigger] model.column(key) == Some(at)
}

/// Whether `other` has the columns of `model`, of the same identifiers.
pub open spec fn is_alike(other: ModelView, model: ModelView) -> bool {
    &&& other.names == model.names
    &&& other.columns.len() == model.columns.len()
    &&& forall|i: int|
        0 <= i < model.columns.len() ==> (#[trigger] other.columns[i]).name == model.columns[i].name
}

/// Whether `other`, alike `model`, has the columns of `path` as they are in it.
pub open spec fn agrees(other: ModelView, model: ModelView, path: Seq<Seq<char>>) -> bool {
    &&& is_alike(other, model)
    &&& forall|i: int|
        0 <= i < model.columns.len() && is_of(model, path, i) ==> #[trigger] other.columns[i]
            == model.columns[i]
}

/// Whether `after` differs from `before` in columns of `path` at most.
pub open spec fn changes_only(
    before: ModelView,
    after: ModelView,
    model: ModelView,
    path: Seq<Seq<char>>,
) -> bool {
    &&& is_alike(after, before)
    &&& forall|i: int|
        0 <= i < before.columns.len() && !is_of(model, path, i) ==> #[trigger] after.columns[i]
            == before.columns[i]
}

pub proof fn lemma_alike(other: ModelView, model: ModelView, key: KeyView)
    requires
        is_alike(other, model),
    ensures
        other.column(key) == model.column(key),
{
    if let Some(name) = name_in(model.names, key) {
        lemma_first_where(other.columns, has_name(name));
        lemma_first_where(model.columns, has_name(name));
        if let Some(at) = model.named(name) {
            assert((has_name(name))(other.columns[at]));
        }
        if let Some(at) = other.named(name) {
            assert((has_name(name))(model.columns[at]));
        }
    }
}

proof fn lemma_alike_variants(
    other: ModelView,
    model: ModelView,
    path: Seq<Seq<char>>,
    n: int,
)
    requires
        is_alike(other, model),
        n <= kinds().len(),
    ensures
        variants(other, path, n) == variants(model, path, n),
        forall|i: int|
            0 <= i < variants(model, path, n).len() ==> {
                let at = #[trigger] variants(model, path, n)[i];
                0 <= at < model.columns.len() && is_of(model, path, at)
            },
    decreases n,
{
    if n > 0 {
        lemma_alike_variants(other, model, path, n - 1);
        let key = KeyView::Variant { column: path, kind: kinds()[n - 1] };
        lemma_alike(other, model, key);
        lemma_column_is_one(model, key);
        let before = variants(model, path, n - 1);
        assert forall|i: int| 0 <= i < variants(model, path, n).len() implies {
            let at = #[trigger] variants(model, path, n)[i];
            0 <= at < model.columns.len() && is_of(model, path, at)
        } by {
            if i < before.len() {
                assert(variants(model, path, n)[i] == before[i]);
            } else {
                assert(path_of(key) == path);
                assert(model.column(key) == Some(variants(model, path, n)[i]));
            }
        }
    }
}

/// A column fits one of its own beside others as it fits it alone, `original` and `own` being
/// where its own column stands in the two.
proof fn lemma_fitting_alone(
    draft: DraftView,
    single: DraftView,
    column: ArrivingView,
    original: int,
    own: int,
)
    requires
        agrees(draft.model, single.model, column.path),
        original == own && 0 <= own < single.model.columns.len() && is_of(
            single.model,
            column.path,
            own,
        ) || original >= draft.model.columns.len() && own >= single.model.columns.len()
            && draft.column_type(original) == single.column_type(own),
    ensures
        column.fitting(draft, original) is Some == column.fitting(single, own) is Some,
{
    let model = single.model;
    let all = candidates(draft.model, column.path, original);
    let alone = candidates(model, column.path, own);
    lemma_alike_variants(draft.model, model, column.path, kinds().len() as int);
    let others = variants(model, column.path, kinds().len() as int);
    assert(all.len() == alone.len() == others.len() + 1);
    assert forall|i: int| 0 <= i < all.len() implies (column.fits(draft))(#[trigger] all[i]) == (
    column.fits(single))(alone[i]) by {
        if i == 0 {
            assert(all[i] == original && alone[i] == own);
        } else {
            assert(all[i] == others[i - 1] && alone[i] == others[i - 1]);
        }
    }
    lemma_first_where(all, column.fits(draft));
    lemma_first_where(alone, column.fits(single));
    if let Some(at) = crate::search::first_where(all, column.fits(draft)) {
        assert((column.fits(single))(alone[at]));
    }
    if let Some(at) = crate::search::first_where(alone, column.fits(single)) {
        assert((column.fits(draft))(all[at]));
    }
}

/// What a column's place needs beside others is what it needs alone.
proof fn lemma_placed_alone(
    capabilities: &Capabilities,
    draft: DraftView,
    single: DraftView,
    column: ArrivingView,
    original: int,
    own: int,
    adds: Seq<AddedView>,
)
    requires
        agrees(draft.model, single.model, column.path),
        draft.adds == adds + single.adds,
        original == own && 0 <= own < single.model.columns.len() && is_of(
            single.model,
            column.path,
            own,
        ) || original + 1 == draft.width() && original >= draft.model.columns.len() && own + 1
            == single.width() && own >= single.model.columns.len() && draft.column_type(original)
            == column.added_type() && single.column_type(own) == column.added_type(),
    ensures
        match (
            placed(capabilities, draft, column, original),
            placed(capabilities, single, column, own),
        ) {
            (Ok((_, next)), Ok((_, made))) => next.adds == adds + made.adds && changes_only(
                draft.model,
                next.model,
                single.model,
                column.path,
            ),
            (Err(cause), Err(other)) => cause == other,
            _ => false,
        },
{
    let model = single.model;
    lemma_fitting_alone(draft, single, column, original, own);
    let joined = column.join(single, own);
    assert(joined == column.join(draft, original));
    let key = KeyView::Variant { column: column.path, kind: joined.kind() };
    let json = KeyView::Variant {
        column: column.path,
        kind: crate::table::types::TypeKind::Json,
    };
    lemma_alike(draft.model, model, key);
    lemma_alike(draft.model, model, json);
    lemma_column_is_one(model, key);
    if let Some(existing) = model.column(key) {
        assert(path_of(key) == column.path && model.column(key) == Some(existing));
        assert(is_of(model, column.path, existing));
        assert(draft.model.columns[existing] == model.columns[existing]);
    }
    if own >= model.columns.len() && column.hint is None {
        crate::table::resolve::lemma_added_fits(draft, column, original);
    }
    assert(forall|last: AddedView| #[trigger]
        draft.adds.push(last) =~= adds + single.adds.push(last));
}

/// What a column needs beside others is what it needs alone.
pub proof fn lemma_routed_alone(
    capabilities: &Capabilities,
    draft: DraftView,
    model: ModelView,
    column: ArrivingView,
)
    requires
        agrees(draft.model, model, column.path),
    ensures
        match (
            routed(capabilities, draft, column, model.created()),
            alone(capabilities, model, column),
        ) {
            (Ok((_, next)), Ok(made)) => next.adds == draft.adds + made && changes_only(
                draft.model,
                next.model,
                model,
                column.path,
            ),
            (Err(cause), Err(other)) => cause == other,
            _ => false,
        },
{
    let key = KeyView::Source(column.path);
    let single = untouched(model);
    lemma_alike(draft.model, model, key);
    lemma_column_is_one(model, key);
    assert(draft.adds =~= draft.adds + single.adds);
    if let Some(original) = model.column(key) {
        assert(path_of(key) == column.path && model.column(key) == Some(original));
        assert(is_of(model, column.path, original));
        if column.logical != TypeView::Null {
            lemma_placed_alone(
                capabilities,
                draft,
                single,
                column,
                original,
                original,
                draft.adds,
            );
        }
    } else if column.logical != TypeView::Null {
        let wider = draft.added(key, column.added_type(), !column.is_key);
        let made = single.added(key, column.added_type(), !column.is_key);
        assert(wider.adds =~= draft.adds + made.adds);
        lemma_placed_alone(
            capabilities,
            wider,
            made,
            column,
            draft.width(),
            single.width(),
            draft.adds,
        );
    }
}

/// The columns the first `n` of `columns` add, each as it would alone.
pub open spec fn added_alone(
    capabilities: &Capabilities,
    model: ModelView,
    columns: Seq<ArrivingView>,
    n: int,
) -> Seq<AddedView>
    decreases n,
{
    if n <= 0 {
        Seq::empty()
    } else {
        let before = added_alone(capabilities, model, columns, n - 1);
        match alone(capabilities, model, columns[n - 1]) {
            Ok(adds) => before + adds,
            Err(_) => before,
        }
    }
}

/// Every column of a batch adds to its table what it would alone, and a batch is taken where each
/// of its columns would be alone.
pub proof fn law_columns_are_resolved_on_their_own(
    capabilities: &Capabilities,
    model: ModelView,
    columns: Seq<ArrivingView>,
    n: int,
)
    requires
        0 <= n <= columns.len(),
        is_injective(model),
        are_distinct(columns),
    ensures
        match routed_all(capabilities, model, columns, n) {
            Ok((_, draft)) => draft.adds == added_alone(capabilities, model, columns, n) && forall|
                i: int,
            |
                0 <= i < n ==> alone(capabilities, model, #[trigger] columns[i]) is Ok,
            Err((at, cause)) => 0 <= at < n && alone(capabilities, model, columns[at]) == Err::<
                Seq<AddedView>,
                CauseView,
            >(cause),
        },
{
    lemma_resolved(capabilities, model, columns, n);
}

pub proof fn lemma_resolved(
    capabilities: &Capabilities,
    model: ModelView,
    columns: Seq<ArrivingView>,
    n: int,
)
    requires
        0 <= n <= columns.len(),
        is_injective(model),
        are_distinct(columns),
    ensures
        match routed_all(capabilities, model, columns, n) {
            Ok((_, draft)) => {
                &&& draft.adds == added_alone(capabilities, model, columns, n)
                &&& forall|i: int|
                    0 <= i < n ==> alone(capabilities, model, #[trigger] columns[i]) is Ok
                &&& forall|i: int|
                    n <= i < columns.len() ==> agrees(
                        draft.model,
                        model,
                        (#[trigger] columns[i]).path,
                    )
            },
            Err((at, cause)) => 0 <= at < n && alone(capabilities, model, columns[at]) == Err::<
                Seq<AddedView>,
                CauseView,
            >(cause),
        },
    decreases n,
{
    if n > 0 {
        lemma_resolved(capabilities, model, columns, n - 1);
        if let Ok((_, draft)) = routed_all(capabilities, model, columns, n - 1) {
            let column = columns[n - 1];
            assert(agrees(draft.model, model, column.path));
            lemma_routed_alone(capabilities, draft, model, column);
            if let Ok((_, next)) = routed(capabilities, draft, column, model.created()) {
                assert forall|i: int| n <= i < columns.len() implies agrees(
                    next.model,
                    model,
                    (#[trigger] columns[i]).path,
                ) by {
                    let path = columns[i].path;
                    assert(columns[n - 1].path != path);
                    assert(agrees(draft.model, model, path));
                    assert forall|c: int|
                        0 <= c < model.columns.len() && is_of(model, path, c) implies
                        #[trigger] next.model.columns[c] == model.columns[c] by {
                        assert(draft.model.columns[c] == model.columns[c]);
                        if is_of(model, column.path, c) {
                            let a = choose|key: KeyView|
                                path_of(key) == path && #[trigger] model.column(key) == Some(c);
                            let b = choose|key: KeyView|
                                path_of(key) == column.path && #[trigger] model.column(key)
                                    == Some(c);
                            assert(model.column(a) is Some && model.column(b) == model.column(a));
                            assert(a == b);
                        }
                    }
                }
            }
        }
    }
}

proof fn lemma_added_alone_holds(
    capabilities: &Capabilities,
    model: ModelView,
    columns: Seq<ArrivingView>,
    n: int,
    added: AddedView,
)
    requires
        0 <= n <= columns.len(),
    ensures
        added_alone(capabilities, model, columns, n).contains(added) == exists|i: int|
            0 <= i < n && adds(capabilities, model, #[trigger] columns[i], added),
    decreases n,
{
    if n > 0 {
        lemma_added_alone_holds(capabilities, model, columns, n - 1, added);
        let before = added_alone(capabilities, model, columns, n - 1);
        let now = added_alone(capabilities, model, columns, n);
        if let Ok(made) = alone(capabilities, model, columns[n - 1]) {
            if before.contains(added) {
                let at = choose|i: int| 0 <= i < before.len() && before[i] == added;
                assert(now[at] == added);
            }
            if made.contains(added) {
                let at = choose|i: int| 0 <= i < made.len() && made[i] == added;
                assert(now[before.len() + at] == added);
                assert(adds(capabilities, model, columns[n - 1], added));
            }
            if now.contains(added) {
                let at = choose|i: int| 0 <= i < now.len() && now[i] == added;
                if at < before.len() {
                    assert(before[at] == added);
                } else {
                    assert(made[at - before.len()] == added);
                }
            }
        }
    }
}

/// Whether `column` adds `added` to its table.
pub open spec fn adds(
    capabilities: &Capabilities,
    model: ModelView,
    column: ArrivingView,
    added: AddedView,
) -> bool {
    alone(capabilities, model, column) matches Ok(made) && made.contains(added)
}

/// What a batch adds to its table, and so what is named together, does not depend on the order of
/// its columns, nor does whether the batch is taken.
pub proof fn law_added_columns_do_not_depend_on_column_order(
    capabilities: &Capabilities,
    model: ModelView,
    columns: Seq<ArrivingView>,
    other: Seq<ArrivingView>,
)
    requires
        is_injective(model),
        are_distinct(columns),
        are_distinct(other),
        forall|column: ArrivingView| columns.contains(column) == other.contains(column),
    ensures
        match (
            routed_all(capabilities, model, columns, columns.len() as int),
            routed_all(capabilities, model, other, other.len() as int),
        ) {
            (Ok((_, draft)), Ok((_, swapped))) => forall|added: AddedView|
                draft.adds.contains(added) == swapped.adds.contains(added),
            (Err(_), Err(_)) => true,
            _ => false,
        },
{
    let n = columns.len() as int;
    let m = other.len() as int;
    lemma_resolved(capabilities, model, columns, n);
    lemma_resolved(capabilities, model, other, m);
    if let Err((at, _)) = routed_all(capabilities, model, columns, n) {
        assert(columns.contains(columns[at]));
        let i = choose|i: int| 0 <= i < m && other[i] == columns[at];
        assert(alone(capabilities, model, other[i]) is Err);
    }
    if let Err((at, _)) = routed_all(capabilities, model, other, m) {
        assert(other.contains(other[at]));
        let i = choose|i: int| 0 <= i < n && columns[i] == other[at];
        assert(alone(capabilities, model, columns[i]) is Err);
    }
    if let Ok((_, draft)) = routed_all(capabilities, model, columns, n) {
        if let Ok((_, swapped)) = routed_all(capabilities, model, other, m) {
            assert forall|added: AddedView| draft.adds.contains(added) == swapped.adds.contains(
                added,
            ) by {
                lemma_added_alone_holds(capabilities, model, columns, n, added);
                lemma_added_alone_holds(capabilities, model, other, m, added);
                if draft.adds.contains(added) {
                    let i = choose|i: int|
                        0 <= i < n && adds(capabilities, model, #[trigger] columns[i], added);
                    assert(columns.contains(columns[i]));
                    let j = choose|j: int| 0 <= j < m && other[j] == columns[i];
                    assert(adds(capabilities, model, other[j], added));
                }
                if swapped.adds.contains(added) {
                    let i = choose|i: int|
                        0 <= i < m && adds(capabilities, model, #[trigger] other[i], added);
                    assert(other.contains(other[i]));
                    let j = choose|j: int| 0 <= j < n && columns[j] == other[i];
                    assert(adds(capabilities, model, columns[j], added));
                }
            }
        }
    }
}

} // verus!
