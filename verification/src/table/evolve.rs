//! How a table takes a column of a batch, case by case: as it is, widened in place, in a variant,
//! in a column of its own, or not at all.

use crate::search::{lemma_first_is, lemma_first_is_none, lemma_first_where};
use crate::table::lower::{lowered, Capabilities, Nested};
use crate::table::model::{has_key, name_in, KeyView, ModelView};
use crate::table::order::{
    added_alone, alone, is_injective, lemma_resolved, untouched,
};
use crate::table::resolve::{
    are_distinct, arriving_views, candidates, is_resolution, kinds, lemma_column_is_one,
    resolved_model, routed, routed_all, variants, with_added, AddedView, Arriving, ArrivingView,
    CauseView, ChangeView, DraftView, OnUnsupported, Refused, Route, SchemaPolicy, Unnamed,
};
use crate::table::types::{FieldView, TypeKind, TypeView};
use vstd::prelude::*;

verus! {

/// Whether the destination stores values of both types as one.
pub open spec fn are_stored_alike(
    capabilities: &Capabilities,
    a: TypeView,
    b: TypeView,
    nested: Nested,
) -> bool {
    lowered(a, nested, capabilities) == lowered(b, nested, capabilities)
}

/// Whether the destination declares that it changes a column from how it stores one type to how it
/// stores the other.
pub open spec fn is_declared(
    capabilities: &Capabilities,
    from: TypeView,
    to: TypeView,
    nested: Nested,
) -> bool {
    capabilities.widenings@.contains(
        (lowered(from, nested, capabilities).kind(), lowered(to, nested, capabilities).kind()),
    )
}

/// Whether a column of a table may change for `column`: it is a key's, or its policy lets it
/// evolve.
pub open spec fn evolves(column: ArrivingView) -> bool {
    column.is_key || column.policy == SchemaPolicy::Evolve
}

/// Whether the table's column at `at` holds every value of `column` as it is.
pub open spec fn holds(model: ModelView, column: ArrivingView, at: int) -> bool {
    0 <= at < model.columns.len() && column.joins[at] == model.columns[at].logical
}

/// Whether the table's column at `at` is `column`'s own, or a variant of it.
pub open spec fn is_for(model: ModelView, column: ArrivingView, at: int) -> bool {
    model.column(KeyView::Source(column.path)) == Some(at) || exists|kind: TypeKind| #[trigger]
        model.column(KeyView::Variant { column: column.path, kind }) == Some(at)
}

/// Whether no column of the table that is for `column` holds it as it is.
pub open spec fn is_unheld(model: ModelView, column: ArrivingView) -> bool {
    forall|at: int| #[trigger] is_for(model, column, at) ==> !holds(model, column, at)
}

/// Every kind is one of those variants are looked for by, once.
pub proof fn law_every_kind_is_looked_for(kind: TypeKind)
    ensures
        kinds().contains(kind),
        kinds().no_duplicates(),
{
    let all = kinds();
    match kind {
        TypeKind::Null => assert(all[0] == kind),
        TypeKind::Bool => assert(all[1] == kind),
        TypeKind::Int8 => assert(all[2] == kind),
        TypeKind::Int16 => assert(all[3] == kind),
        TypeKind::Int32 => assert(all[4] == kind),
        TypeKind::Int64 => assert(all[5] == kind),
        TypeKind::Float32 => assert(all[6] == kind),
        TypeKind::Float64 => assert(all[7] == kind),
        TypeKind::Decimal => assert(all[8] == kind),
        TypeKind::Utf8 => assert(all[9] == kind),
        TypeKind::Binary => assert(all[10] == kind),
        TypeKind::Date => assert(all[11] == kind),
        TypeKind::Time => assert(all[12] == kind),
        TypeKind::Timestamp => assert(all[13] == kind),
        TypeKind::Duration => assert(all[14] == kind),
        TypeKind::Uuid => assert(all[15] == kind),
        TypeKind::Json => assert(all[16] == kind),
        TypeKind::Struct => assert(all[17] == kind),
        TypeKind::List => assert(all[18] == kind),
    }
}

proof fn lemma_variant_listed(model: ModelView, path: Seq<Seq<char>>, n: int, k: int)
    requires
        0 <= k < n <= kinds().len(),
        model.column(KeyView::Variant { column: path, kind: kinds()[k] }) is Some,
    ensures
        variants(model, path, n).contains(
            model.column(KeyView::Variant { column: path, kind: kinds()[k] })->0,
        ),
    decreases n,
{
    let at = model.column(KeyView::Variant { column: path, kind: kinds()[k] })->0;
    let all = variants(model, path, n);
    let before = variants(model, path, n - 1);
    if k < n - 1 {
        lemma_variant_listed(model, path, n - 1, k);
        let i = choose|i: int| 0 <= i < before.len() && before[i] == at;
        assert(all[i] == at);
    } else {
        assert(all[before.len() as int] == at);
    }
}

proof fn lemma_listed_is_variant(model: ModelView, path: Seq<Seq<char>>, n: int, i: int)
    requires
        0 <= n <= kinds().len(),
        0 <= i < variants(model, path, n).len(),
    ensures
        exists|kind: TypeKind| #[trigger]
            model.column(KeyView::Variant { column: path, kind }) == Some(
                variants(model, path, n)[i],
            ),
    decreases n,
{
    let before = variants(model, path, n - 1);
    if n > 0 && i < before.len() {
        lemma_listed_is_variant(model, path, n - 1, i);
        assert(variants(model, path, n)[i] == before[i]);
    } else if n > 0 {
        let kind = kinds()[n - 1];
        assert(model.column(KeyView::Variant { column: path, kind }) == Some(
            variants(model, path, n)[i],
        ));
    }
}

/// The columns looked at for a column of the table are those for it.
proof fn lemma_candidates(model: ModelView, column: ArrivingView, original: int, at: int)
    requires
        model.column(KeyView::Source(column.path)) == Some(original),
    ensures
        candidates(model, column.path, original).contains(at) <==> is_for(model, column, at),
{
    let all = candidates(model, column.path, original);
    let others = variants(model, column.path, kinds().len() as int);
    assert(all[0] == original);
    if all.contains(at) {
        let i = choose|i: int| 0 <= i < all.len() && all[i] == at;
        if i > 0 {
            assert(all[i] == others[i - 1]);
            lemma_listed_is_variant(model, column.path, kinds().len() as int, i - 1);
        }
    }
    if is_for(model, column, at) && at != original {
        let kind = choose|kind: TypeKind| #[trigger]
            model.column(KeyView::Variant { column: column.path, kind }) == Some(at);
        law_every_kind_is_looked_for(kind);
        let k = choose|k: int| 0 <= k < kinds().len() && kinds()[k] == kind;
        lemma_variant_listed(model, column.path, kinds().len() as int, k);
        let i = choose|i: int| 0 <= i < others.len() && others[i] == at;
        assert(all[i + 1] == at);
    }
}

/// What is found to hold a column of the table is for it and holds it, its own first; nothing is
/// found where nothing does.
proof fn lemma_fitting(draft: DraftView, column: ArrivingView, original: int)
    requires
        draft.model.column(KeyView::Source(column.path)) == Some(original),
    ensures
        match column.fitting(draft, original) {
            Some(at) => is_for(draft.model, column, at) && holds(draft.model, column, at) && (holds(
                draft.model,
                column,
                original,
            ) ==> at == original),
            None => is_unheld(draft.model, column),
        },
{
    let all = candidates(draft.model, column.path, original);
    let fits = column.fits(draft);
    lemma_first_where(all, fits);
    lemma_column_is_one(draft.model, KeyView::Source(column.path));
    assert(all[0] == original);
    match column.fitting(draft, original) {
        Some(at) => {
            assert(all.contains(at));
            lemma_candidates(draft.model, column, original, at);
            lemma_for_is_a_column(draft.model, column, at);
            assert(fits(at));
            if holds(draft.model, column, original) {
                assert(fits(all[0]));
                lemma_first_is(all, fits, 0);
            }
        },
        None => {
            assert forall|at: int| #[trigger] is_for(draft.model, column, at) implies !holds(
                draft.model,
                column,
                at,
            ) by {
                lemma_candidates(draft.model, column, original, at);
                let i = choose|i: int| 0 <= i < all.len() && all[i] == at;
                assert(!fits(all[i]));
            }
        },
    }
}

proof fn lemma_for_is_a_column(model: ModelView, column: ArrivingView, at: int)
    requires
        is_for(model, column, at),
    ensures
        0 <= at < model.columns.len(),
{
    lemma_column_is_one(model, KeyView::Source(column.path));
    if model.column(KeyView::Source(column.path)) != Some(at) {
        let kind = choose|kind: TypeKind| #[trigger]
            model.column(KeyView::Variant { column: column.path, kind }) == Some(at);
        lemma_column_is_one(model, KeyView::Variant { column: column.path, kind });
    }
}

/// A column of nulls goes to the table's column of its path, and nowhere where the table has none,
/// and changes nothing, whatever its policy.
pub proof fn law_nulls_change_nothing(
    capabilities: &Capabilities,
    draft: DraftView,
    column: ArrivingView,
    created: bool,
)
    requires
        column.logical == TypeView::Null,
    ensures
        routed(capabilities, draft, column, created) == Ok::<(Route, DraftView), CauseView>(
            (
                match draft.model.column(KeyView::Source(column.path)) {
                    Some(original) => Route::Column(original as usize),
                    None => Route::Skip,
                },
                draft,
            ),
        ),
{
}

/// Values that a column of the table already holds as they are go there, its own before a variant,
/// and change nothing, whatever the column's policy.
pub proof fn law_held_columns_go_where_they_are_held(
    capabilities: &Capabilities,
    draft: DraftView,
    column: ArrivingView,
    created: bool,
    original: int,
)
    requires
        column.logical != TypeView::Null,
        draft.model.column(KeyView::Source(column.path)) == Some(original),
        !is_unheld(draft.model, column),
        draft.model.columns.len() <= usize::MAX,
    ensures
        routed(capabilities, draft, column, created) matches Ok((route, next)) && next == draft && (
        route matches Route::Column(at) && is_for(draft.model, column, at as int) && holds(
            draft.model,
            column,
            at as int,
        ) && (holds(draft.model, column, original) ==> at == original)),
{
    lemma_fitting(draft, column, original);
    let at = column.fitting(draft, original)->0;
    lemma_for_is_a_column(draft.model, column, at);
}

/// A column whose type, and the one it would widen to, the destination stores alike takes the
/// incoming values in place: they go to it, or to a column that already holds them; no column is
/// added for them, and they are not refused, whichever widenings the destination declares.
pub proof fn law_columns_stored_alike_widen_in_place(
    capabilities: &Capabilities,
    draft: DraftView,
    column: ArrivingView,
    created: bool,
    original: int,
)
    requires
        draft.model.column(KeyView::Source(column.path)) == Some(original),
        draft.model.columns.len() <= usize::MAX,
        column.hint is None,
        evolves(column),
        column.joins[original] != TypeView::Json,
        are_stored_alike(
            capabilities,
            draft.model.columns[original].logical,
            column.joins[original],
            column.nested,
        ),
    ensures
        routed(capabilities, draft, column, created) matches Ok((route, next)) && next.adds
            == draft.adds && (route matches Route::Column(at) && (at == original || (is_for(
            draft.model,
            column,
            at as int,
        ) && holds(draft.model, column, at as int)))),
{
    lemma_column_is_one(draft.model, KeyView::Source(column.path));
    if column.logical != TypeView::Null {
        lemma_fitting(draft, column, original);
        if let Some(at) = column.fitting(draft, original) {
            lemma_for_is_a_column(draft.model, column, at);
        }
    }
}

/// The resolution that widens the column at `at` of the table to `to` and changes nothing else.
pub open spec fn widening(draft: DraftView, at: int, to: TypeView) -> DraftView {
    let field = draft.model.columns[at];
    DraftView {
        model: ModelView {
            version: draft.model.version,
            columns: draft.model.columns.update(
                at,
                FieldView { name: field.name, logical: to, nullable: field.nullable },
            ),
            names: draft.model.names,
        },
        adds: draft.adds,
        changes: draft.changes.push(ChangeView::Widen { column: at, from: field.logical }),
    }
}

/// The resolution that adds one column behind the others and changes nothing else.
pub open spec fn adding(draft: DraftView, key: KeyView, logical: TypeView, nullable: bool) -> DraftView {
    DraftView {
        model: draft.model,
        adds: draft.adds.push(AddedView { key, logical, nullable }),
        changes: draft.changes.push(ChangeView::Add { key }),
    }
}

/// Values that no column holds change their own column where the destination changes it: it takes
/// the least type that holds both, and keeps its name and its nullability, where it is not hinted,
/// that type is not JSON, and the destination stores both types alike or declares the change.
pub proof fn law_own_columns_widen_where_they_can(
    capabilities: &Capabilities,
    draft: DraftView,
    column: ArrivingView,
    created: bool,
    original: int,
)
    requires
        column.logical != TypeView::Null,
        draft.model.column(KeyView::Source(column.path)) == Some(original),
        is_unheld(draft.model, column),
        evolves(column),
        column.hint is None,
        column.joins[original] != TypeView::Json,
        ({
            let current = draft.model.columns[original].logical;
            let joined = column.joins[original];
            are_stored_alike(capabilities, current, joined, column.nested) || is_declared(
                capabilities,
                current,
                joined,
                column.nested,
            )
        }),
    ensures
        routed(capabilities, draft, column, created) == Ok::<(Route, DraftView), CauseView>(
            (
                Route::Column(original as usize),
                widening(draft, original, column.joins[original]),
            ),
        ),
{
    lemma_column_is_one(draft.model, KeyView::Source(column.path));
    lemma_fitting(draft, column, original);
    if let Some(at) = column.fitting(draft, original) {
        assert(is_for(draft.model, column, at));
    }
    assert(routed(capabilities, draft, column, created)->Ok_0.1 =~= widening(
        draft,
        original,
        column.joins[original],
    ));
}

/// Whether the table's own column of `column`, at `original`, cannot be widened for it.
pub open spec fn is_fixed(
    capabilities: &Capabilities,
    draft: DraftView,
    column: ArrivingView,
    original: int,
) -> bool {
    let current = draft.model.columns[original].logical;
    let joined = column.joins[original];
    ||| column.hint is Some
    ||| joined == TypeView::Json
    ||| !are_stored_alike(capabilities, current, joined, column.nested) && !is_declared(
        capabilities,
        current,
        joined,
        column.nested,
    )
}

/// Values that no column holds, and that their own column cannot be widened for, are refused where
/// it is a key's, where the column's settings refuse what the destination does not support, and
/// where the destination adds no columns; the refusal names the column's type. A frozen column
/// refuses them before it is widened, and one that discards drops the rows or the values.
pub proof fn law_what_cannot_be_held_is_refused_or_dropped(
    capabilities: &Capabilities,
    draft: DraftView,
    column: ArrivingView,
    created: bool,
    original: int,
)
    requires
        column.logical != TypeView::Null,
        draft.model.column(KeyView::Source(column.path)) == Some(original),
        is_unheld(draft.model, column),
    ensures
        ({
            let current = draft.model.columns[original].logical;
            let made = routed(capabilities, draft, column, created);
            let fixed = is_fixed(capabilities, draft, column, original);
            &&& column.is_key && fixed ==> made == Err::<(Route, DraftView), CauseView>(
                CauseView::KeyCannotHold { current },
            )
            &&& !column.is_key && column.policy == SchemaPolicy::Freeze ==> made == Err::<
                (Route, DraftView),
                CauseView,
            >(CauseView::CannotHold { current })
            &&& !column.is_key && column.policy == SchemaPolicy::DiscardRow ==> made == Ok::<
                (Route, DraftView),
                CauseView,
            >((Route::DiscardRows, draft))
            &&& !column.is_key && column.policy == SchemaPolicy::DiscardValue ==> made == Ok::<
                (Route, DraftView),
                CauseView,
            >((Route::DiscardValues, draft))
            &&& !column.is_key && column.policy == SchemaPolicy::Evolve && fixed && (
            column.on_unsupported == OnUnsupported::Refuse || !capabilities.add_column) ==> made
                == Err::<(Route, DraftView), CauseView>(CauseView::CannotChange { current })
        }),
{
    lemma_column_is_one(draft.model, KeyView::Source(column.path));
    lemma_fitting(draft, column, original);
    if let Some(at) = column.fitting(draft, original) {
        assert(is_for(draft.model, column, at));
    }
}

/// Values that no column holds, and that their own column cannot be widened for, go to a variant:
/// that of the kind of the least type that holds both, which is added with that type where there is
/// none, and widened where it can be and keeps its kind; else the JSON variant, which holds
/// anything, and is added where there is none. Their own column stays as it is.
pub proof fn law_variants_take_what_cannot_be_held(
    capabilities: &Capabilities,
    draft: DraftView,
    column: ArrivingView,
    created: bool,
    original: int,
)
    requires
        column.logical != TypeView::Null,
        draft.model.column(KeyView::Source(column.path)) == Some(original),
        is_unheld(draft.model, column),
        is_fixed(capabilities, draft, column, original),
        !column.is_key,
        column.policy == SchemaPolicy::Evolve,
        column.on_unsupported == OnUnsupported::Variant,
        capabilities.add_column,
    ensures
        ({
            let kind = column.joins[original].kind();
            let key = KeyView::Variant { column: column.path, kind };
            let json = KeyView::Variant { column: column.path, kind: TypeKind::Json };
            let made = routed(capabilities, draft, column, created);
            let last = (draft.model.columns.len() + draft.adds.len()) as usize;
            match draft.model.column(key) {
                None => made == Ok::<(Route, DraftView), CauseView>(
                    (Route::Column(last), adding(draft, key, column.joins[original], true)),
                ),
                Some(at) => {
                    let current = draft.model.columns[at].logical;
                    let wider = column.joins[at];
                    if wider != TypeView::Json && wider.kind() == kind && (are_stored_alike(
                        capabilities,
                        current,
                        wider,
                        column.nested,
                    ) || is_declared(capabilities, current, wider, column.nested)) {
                        made == Ok::<(Route, DraftView), CauseView>(
                            (Route::Column(at as usize), widening(draft, at, wider)),
                        )
                    } else {
                        match draft.model.column(json) {
                            Some(found) => made == Ok::<(Route, DraftView), CauseView>(
                                (Route::Column(found as usize), draft),
                            ),
                            None => made == Ok::<(Route, DraftView), CauseView>(
                                (Route::Column(last), adding(draft, json, TypeView::Json, true)),
                            ),
                        }
                    }
                },
            }
        }),
{
    lemma_column_is_one(draft.model, KeyView::Source(column.path));
    let kind = column.joins[original].kind();
    let key = KeyView::Variant { column: column.path, kind };
    lemma_column_is_one(draft.model, key);
    lemma_fitting(draft, column, original);
    if let Some(at) = column.fitting(draft, original) {
        assert(is_for(draft.model, column, at));
    }
    if let Some(at) = draft.model.column(key) {
        assert(draft.widened(at, column.joins[at]) =~= widening(draft, at, column.joins[at]));
    }
}

/// A column the table lacks becomes one of its own: of the incoming type, or of the one it is hinted
/// to have, nullable unless it is a key's, behind all others; and its values go there, where that
/// type holds them. A table being created takes every column; one that exists refuses or drops what
/// its policy says, but for keys, and refuses what the destination cannot add.
pub proof fn law_new_columns_are_added(
    capabilities: &Capabilities,
    draft: DraftView,
    column: ArrivingView,
    created: bool,
)
    requires
        column.logical != TypeView::Null,
        draft.model.column(KeyView::Source(column.path)) is None,
        column.hint matches Some((logical, joined)) ==> logical == joined,
    ensures
        ({
            let made = routed(capabilities, draft, column, created);
            let taken = !created || evolves(column) && capabilities.add_column;
            let logical = match column.hint {
                Some((hinted, _)) => hinted,
                None => column.logical,
            };
            let last = (draft.model.columns.len() + draft.adds.len()) as usize;
            &&& taken ==> made == Ok::<(Route, DraftView), CauseView>(
                (
                    Route::Column(last),
                    adding(draft, KeyView::Source(column.path), logical, !column.is_key),
                ),
            )
            &&& created && !column.is_key && column.policy == SchemaPolicy::Freeze ==> made == Err::<
                (Route, DraftView),
                CauseView,
            >(CauseView::NewColumn)
            &&& created && !column.is_key && column.policy == SchemaPolicy::DiscardRow ==> made
                == Ok::<(Route, DraftView), CauseView>((Route::DiscardRows, draft))
            &&& created && !column.is_key && column.policy == SchemaPolicy::DiscardValue ==> made
                == Ok::<(Route, DraftView), CauseView>((Route::DiscardValues, draft))
            &&& created && evolves(column) && !capabilities.add_column ==> made == Err::<
                (Route, DraftView),
                CauseView,
            >(CauseView::CannotAdd)
        }),
{
    let key = KeyView::Source(column.path);
    let logical = match column.hint {
        Some((hinted, _)) => hinted,
        None => column.logical,
    };
    let next = draft.added(key, logical, !column.is_key);
    let original = draft.width();
    let all = candidates(next.model, column.path, original);
    assert(all[0] == original);
    assert((column.fits(next))(original));
    lemma_first_is(all, column.fits(next), 0);
    assert(next =~= adding(draft, key, logical, !column.is_key));
}

/// A batch whose every column is one of its table's, stored as what it would widen to is, is taken
/// without a new column, whichever widenings the destination declares.
pub proof fn law_batches_stored_alike_add_no_columns(
    capabilities: &Capabilities,
    model: ModelView,
    columns: Seq<Arriving>,
    resolution: Result<Unnamed, Refused>,
)
    requires
        is_resolution(capabilities, model, columns, resolution),
        is_injective(model),
        are_distinct(arriving_views(columns)),
        model.columns.len() <= usize::MAX,
        forall|i: int|
            0 <= i < columns.len() ==> {
                let column = (#[trigger] columns[i])@;
                &&& model.column(KeyView::Source(column.path)) is Some
                &&& column.hint is None
                &&& evolves(column)
                &&& {
                    let original = model.column(KeyView::Source(column.path))->0;
                    &&& column.joins[original] != TypeView::Json
                    &&& are_stored_alike(
                        capabilities,
                        model.columns[original].logical,
                        column.joins[original],
                        column.nested,
                    )
                }
            },
    ensures
        resolution matches Ok(unnamed) && unnamed.draft.adds@.len() == 0,
{
    let views = arriving_views(columns);
    let n = columns.len() as int;
    lemma_resolved(capabilities, model, views, n);
    assert forall|i: int| 0 <= i < n implies alone(capabilities, model, #[trigger] views[i]) == Ok::<
        Seq<AddedView>,
        CauseView,
    >(Seq::empty()) by {
        assert(views[i] == columns[i]@);
        let original = model.column(KeyView::Source(views[i].path))->0;
        law_columns_stored_alike_widen_in_place(
            capabilities,
            untouched(model),
            views[i],
            model.created(),
            original,
        );
    }
    lemma_none_added(capabilities, model, views, n);
}

proof fn lemma_none_added(
    capabilities: &Capabilities,
    model: ModelView,
    columns: Seq<ArrivingView>,
    n: int,
)
    requires
        0 <= n <= columns.len(),
        forall|i: int|
            0 <= i < n ==> alone(capabilities, model, #[trigger] columns[i]) == Ok::<
                Seq<AddedView>,
                CauseView,
            >(Seq::empty()),
    ensures
        added_alone(capabilities, model, columns, n).len() == 0,
    decreases n,
{
    if n > 0 {
        lemma_none_added(capabilities, model, columns, n - 1);
        assert(alone(capabilities, model, columns[n - 1]) is Ok);
    }
}

/// The keys of the columns that `changes` add, in their order.
pub open spec fn added_keys(changes: Seq<ChangeView>) -> Seq<KeyView>
    decreases changes.len(),
{
    if changes.len() == 0 {
        Seq::empty()
    } else {
        match changes.last() {
            ChangeView::Add { key } => added_keys(changes.drop_last()).push(key),
            ChangeView::Widen { .. } => added_keys(changes.drop_last()),
        }
    }
}

/// Whether `changes` tell every difference between `model` and `draft`: the columns added, and, of
/// every column whose type is another now, the type it had.
pub open spec fn tells_all(model: ModelView, draft: DraftView) -> bool {
    &&& added_keys(draft.changes) == Seq::new(draft.adds.len(), |i: int| draft.adds[i].key)
    &&& draft.model.columns.len() == model.columns.len()
    &&& forall|c: int|
        0 <= c < model.columns.len() && (#[trigger] draft.model.columns[c]).logical
            != model.columns[c].logical ==> draft.changes.contains(
            ChangeView::Widen { column: c, from: model.columns[c].logical },
        )
}

/// The changes of a resolution tell every difference it makes: a column for each it adds, in their
/// order, and for every column it gives another type the one it had. Without changes the table is
/// as it was.
pub proof fn law_changes_tell_every_difference(
    capabilities: &Capabilities,
    model: ModelView,
    columns: Seq<ArrivingView>,
    n: int,
)
    requires
        0 <= n <= columns.len(),
    ensures
        routed_all(capabilities, model, columns, n) matches Ok((_, draft)) ==> tells_all(
            model,
            draft,
        ) && (draft.changes.len() == 0 ==> draft == untouched(model)),
    decreases n,
{
    if n > 0 {
        law_changes_tell_every_difference(capabilities, model, columns, n - 1);
        if let Ok((_, draft)) = routed_all(capabilities, model, columns, n - 1) {
            if let Ok((_, next)) = routed(capabilities, draft, columns[n - 1], model.created()) {
                lemma_told(capabilities, model, draft, columns[n - 1]);
            }
        }
    } else {
        let start = untouched(model);
        assert(added_keys(start.changes) =~= Seq::new(
            start.adds.len(),
            |i: int| start.adds[i].key,
        ));
    }
}

proof fn lemma_told_add(model: ModelView, draft: DraftView, key: KeyView, logical: TypeView, nullable: bool)
    requires
        tells_all(model, draft),
    ensures
        tells_all(model, draft.added(key, logical, nullable)),
{
    let next = draft.added(key, logical, nullable);
    assert(next.changes.drop_last() =~= draft.changes);
    assert(added_keys(next.changes) =~= Seq::new(next.adds.len(), |i: int| next.adds[i].key));
    assert forall|c: int|
        0 <= c < model.columns.len() && (#[trigger] next.model.columns[c]).logical
            != model.columns[c].logical implies next.changes.contains(
        ChangeView::Widen { column: c, from: model.columns[c].logical },
    ) by {
        let change = ChangeView::Widen { column: c, from: model.columns[c].logical };
        assert(draft.changes.contains(change));
        let i = choose|i: int| 0 <= i < draft.changes.len() && draft.changes[i] == change;
        assert(next.changes[i] == change);
    }
}

proof fn lemma_told_widen(model: ModelView, draft: DraftView, at: int, to: TypeView)
    requires
        tells_all(model, draft),
        0 <= at < draft.model.columns.len(),
    ensures
        tells_all(model, draft.widened(at, to)),
{
    let next = draft.widened(at, to);
    assert(next.changes.drop_last() =~= draft.changes);
    assert(added_keys(next.changes) =~= Seq::new(next.adds.len(), |i: int| next.adds[i].key));
    assert forall|c: int|
        0 <= c < model.columns.len() && (#[trigger] next.model.columns[c]).logical
            != model.columns[c].logical implies next.changes.contains(
        ChangeView::Widen { column: c, from: model.columns[c].logical },
    ) by {
        let change = ChangeView::Widen { column: c, from: model.columns[c].logical };
        if draft.model.columns[c].logical != model.columns[c].logical {
            assert(draft.changes.contains(change));
            let i = choose|i: int| 0 <= i < draft.changes.len() && draft.changes[i] == change;
            assert(next.changes[i] == change);
        } else {
            assert(c == at);
            assert(next.changes[draft.changes.len() as int] == change);
        }
    }
}

proof fn lemma_told(
    capabilities: &Capabilities,
    model: ModelView,
    draft: DraftView,
    column: ArrivingView,
)
    requires
        tells_all(model, draft),
        draft.changes.len() == 0 ==> draft == untouched(model),
        routed(capabilities, draft, column, model.created()) is Ok,
    ensures
        ({
            let next = routed(capabilities, draft, column, model.created())->Ok_0.1;
            tells_all(model, next) && (next.changes.len() == 0 ==> next == untouched(model))
        }),
{
    let own = KeyView::Source(column.path);
    lemma_column_is_one(draft.model, own);
    let fresh = draft.added(own, column.added_type(), !column.is_key);
    lemma_told_add(model, draft, own, column.added_type(), !column.is_key);
    match draft.model.column(own) {
        Some(original) => {
            lemma_told_placed(capabilities, model, draft, column, original);
        },
        None => {
            lemma_told_placed(capabilities, model, fresh, column, draft.width());
        },
    }
}

proof fn lemma_told_placed(
    capabilities: &Capabilities,
    model: ModelView,
    draft: DraftView,
    column: ArrivingView,
    original: int,
)
    requires
        tells_all(model, draft),
        crate::table::resolve::is_own_column(draft, column, original),
    ensures
        crate::table::resolve::placed(capabilities, draft, column, original) matches Ok((_, next))
            ==> tells_all(model, next) && next.changes.len() >= draft.changes.len() && (
        next.changes.len() == draft.changes.len() ==> next == draft),
{
    let joined = column.join(draft, original);
    let key = KeyView::Variant { column: column.path, kind: joined.kind() };
    let json = KeyView::Variant { column: column.path, kind: TypeKind::Json };
    lemma_column_is_one(draft.model, key);
    lemma_told_add(model, draft, key, joined, true);
    lemma_told_add(model, draft, json, TypeView::Json, true);
    if original < draft.model.columns.len() {
        lemma_told_widen(model, draft, original, joined);
    } else if column.hint is None {
        crate::table::resolve::lemma_added_fits(draft, column, original);
    }
    if let Some(at) = draft.model.column(key) {
        lemma_told_widen(model, draft, at, column.join(draft, at));
    }
}

/// A batch is resolved column by column, in its order: each goes where it goes once those before it
/// have, and the first that is refused refuses the batch, for its own cause.
pub proof fn law_columns_are_resolved_in_their_order(
    capabilities: &Capabilities,
    model: ModelView,
    columns: Seq<ArrivingView>,
    n: int,
    i: int,
)
    requires
        0 <= i < n <= columns.len(),
    ensures
        match routed_all(capabilities, model, columns, n) {
            Ok((routes, _)) => {
                &&& routes.len() == n
                &&& routed_all(capabilities, model, columns, i) is Ok
                &&& routed(
                    capabilities,
                    routed_all(capabilities, model, columns, i)->Ok_0.1,
                    columns[i],
                    model.version > 0,
                ) matches Ok((route, _)) && route == routes[i]
            },
            Err((at, cause)) => {
                &&& 0 <= at < n
                &&& routed_all(capabilities, model, columns, at) is Ok
                &&& routed(
                    capabilities,
                    routed_all(capabilities, model, columns, at)->Ok_0.1,
                    columns[at],
                    model.version > 0,
                ) == Err::<(Route, DraftView), CauseView>(cause)
            },
        },
    decreases n,
{
    if i < n - 1 {
        law_columns_are_resolved_in_their_order(capabilities, model, columns, n - 1, i);
    } else if n > 1 {
        law_columns_are_resolved_in_their_order(capabilities, model, columns, n - 1, 0);
    } else {
        assert(routed_all(capabilities, model, columns, 0) is Ok);
    }
}

/// A column the table lacks and that is hinted to have a type that does not hold what comes is
/// refused for a key and for a frozen table, drops what its policy says, and else is added with that
/// type and takes a variant beside it, where the column's settings and the destination allow one.
pub proof fn law_hinted_columns_take_variants(
    capabilities: &Capabilities,
    draft: DraftView,
    column: ArrivingView,
    created: bool,
)
    requires
        column.logical != TypeView::Null,
        draft.model.column(KeyView::Source(column.path)) is None,
        column.hint matches Some((logical, joined)) && logical != joined,
        forall|kind: TypeKind|
            draft.model.column(#[trigger] variant_key(column, kind)) is None,
        !created || evolves(column) && capabilities.add_column,
    ensures
        ({
            let (hinted, joined) = column.hint->0;
            let made = routed(capabilities, draft, column, created);
            let last = draft.model.columns.len() + draft.adds.len();
            let next = adding(draft, KeyView::Source(column.path), hinted, !column.is_key);
            &&& column.is_key ==> made == Err::<(Route, DraftView), CauseView>(
                CauseView::KeyCannotHold { current: hinted },
            )
            &&& !column.is_key && column.policy == SchemaPolicy::Freeze ==> made == Err::<
                (Route, DraftView),
                CauseView,
            >(CauseView::CannotHold { current: hinted })
            &&& !column.is_key && column.policy == SchemaPolicy::DiscardRow ==> made == Ok::<
                (Route, DraftView),
                CauseView,
            >((Route::DiscardRows, next))
            &&& !column.is_key && column.policy == SchemaPolicy::DiscardValue ==> made == Ok::<
                (Route, DraftView),
                CauseView,
            >((Route::DiscardValues, next))
            &&& !column.is_key && column.policy == SchemaPolicy::Evolve && (column.on_unsupported
                == OnUnsupported::Refuse || !capabilities.add_column) ==> made == Err::<
                (Route, DraftView),
                CauseView,
            >(CauseView::CannotChange { current: hinted })
            &&& !column.is_key && column.policy == SchemaPolicy::Evolve && column.on_unsupported
                != OnUnsupported::Refuse && capabilities.add_column ==> made == Ok::<
                (Route, DraftView),
                CauseView,
            >(
                (
                    Route::Column((last + 1) as usize),
                    adding(next, variant_key(column, joined.kind()), joined, true),
                ),
            )
        }),
{
    let (hinted, joined) = column.hint->0;
    let next = draft.added(KeyView::Source(column.path), hinted, !column.is_key);
    let original = draft.width();
    let all = candidates(next.model, column.path, original);
    lemma_no_variants(next.model, column, kinds().len() as int);
    assert(all =~= seq![original]);
    assert forall|i: int| 0 <= i < all.len() implies !(column.fits(next))(#[trigger] all[i]) by {
        assert(all[i] == original);
    }
    lemma_first_is_none(all, column.fits(next));
    assert(next =~= adding(draft, KeyView::Source(column.path), hinted, !column.is_key));
    assert(draft.model.column(variant_key(column, joined.kind())) is None);
    assert(next.added(variant_key(column, joined.kind()), joined, true) =~= adding(
        next,
        variant_key(column, joined.kind()),
        joined,
        true,
    ));
}

/// The key of the variant of `column` that holds what is of `kind`.
pub open spec fn variant_key(column: ArrivingView, kind: TypeKind) -> KeyView {
    KeyView::Variant { column: column.path, kind }
}

proof fn lemma_no_variants(model: ModelView, column: ArrivingView, n: int)
    requires
        n <= kinds().len(),
        forall|kind: TypeKind| model.column(#[trigger] variant_key(column, kind)) is None,
    ensures
        variants(model, column.path, n) == Seq::<int>::empty(),
    decreases n,
{
    if n > 0 {
        lemma_no_variants(model, column, n - 1);
        assert(model.column(variant_key(column, kinds()[n - 1])) is None);
    }
}

proof fn lemma_name_pushed(
    names: Seq<(KeyView, Seq<char>)>,
    entry: (KeyView, Seq<char>),
    key: KeyView,
)
    ensures
        name_in(names.push(entry), key) == match name_in(names, key) {
            Some(name) => Some(name),
            None => if entry.0 == key {
                Some(entry.1)
            } else {
                None
            },
        },
{
    let more = names.push(entry);
    assert(more.drop_last() =~= names);
    lemma_first_where(names, has_key(key));
    lemma_first_where(more, has_key(key));
}

/// What holds of a model with the first `n` added columns.
spec fn is_with_added(
    model: ModelView,
    adds: Seq<AddedView>,
    names: Seq<Seq<char>>,
    n: int,
    more: ModelView,
) -> bool {
    &&& more.version == model.version
    &&& more.columns.len() == model.columns.len() + n
    &&& forall|i: int|
        0 <= i < model.columns.len() ==> #[trigger] more.columns[i] == model.columns[i]
    &&& forall|i: int|
        0 <= i < n ==> #[trigger] more.columns[model.columns.len() + i] == (FieldView {
            name: match name_in(model.names, adds[i].key) {
                Some(name) => name,
                None => names[i],
            },
            logical: adds[i].logical,
            nullable: adds[i].nullable,
        })
    &&& forall|key: KeyView| #[trigger]
        name_in(more.names, key) == match name_in(model.names, key) {
            Some(name) => Some(name),
            None => if exists|i: int| 0 <= i < n && (#[trigger] adds[i]).key == key {
                Some(names[choose|i: int| 0 <= i < n && (#[trigger] adds[i]).key == key])
            } else {
                None
            },
        }
}

proof fn lemma_with_added(
    model: ModelView,
    adds: Seq<AddedView>,
    names: Seq<Seq<char>>,
    n: int,
)
    requires
        0 <= n <= adds.len() <= names.len(),
        forall|i: int, j: int| 0 <= i < j < adds.len() ==> adds[i].key != adds[j].key,
    ensures
        is_with_added(model, adds, names, n, with_added(model, adds, names, n)),
    decreases n,
{
    if n > 0 {
        lemma_with_added(model, adds, names, n - 1);
        let before = with_added(model, adds, names, n - 1);
        let more = with_added(model, adds, names, n);
        let added = adds[n - 1];
        assert(!(exists|i: int| 0 <= i < n - 1 && (#[trigger] adds[i]).key == added.key));
        assert(name_in(before.names, added.key) == name_in(model.names, added.key));
        assert forall|key: KeyView| #[trigger] name_in(more.names, key) == match name_in(
            model.names,
            key,
        ) {
            Some(name) => Some(name),
            None => if exists|i: int| 0 <= i < n && (#[trigger] adds[i]).key == key {
                Some(names[choose|i: int| 0 <= i < n && (#[trigger] adds[i]).key == key])
            } else {
                None
            },
        } by {
            lemma_name_pushed(before.names, (added.key, names[n - 1]), key);
            if exists|i: int| 0 <= i < n && (#[trigger] adds[i]).key == key {
                let i = choose|i: int| 0 <= i < n && (#[trigger] adds[i]).key == key;
                if i < n - 1 {
                    assert(adds[i].key == key);
                    let j = choose|j: int| 0 <= j < n - 1 && (#[trigger] adds[j]).key == key;
                    assert(i == j);
                } else {
                    assert(key == added.key);
                }
            }
        }
        lemma_name_pushed(before.names, (added.key, names[n - 1]), added.key);
        assert forall|i: int| 0 <= i < n implies #[trigger] more.columns[model.columns.len() + i]
            == (FieldView {
            name: match name_in(model.names, adds[i].key) {
                Some(name) => name,
                None => names[i],
            },
            logical: adds[i].logical,
            nullable: adds[i].nullable,
        }) by {
            if i < n - 1 {
                assert(more.columns[model.columns.len() + i] == before.columns[model.columns.len()
                    + i]);
            }
        }
        assert forall|i: int| 0 <= i < model.columns.len() implies #[trigger] more.columns[i]
            == model.columns[i] by {
            assert(more.columns[i] == before.columns[i]);
        }
    }
}

/// A resolved table has its columns as the resolution leaves them, and behind them every column it
/// adds, in their order, with the type and the nullability it was added with, under the identifier
/// that is recorded for it, or else the one it is given. Its version counts the resolutions that
/// change it; a normalized stream's table has one even where nothing has come for it.
pub proof fn law_resolved_tables_have_every_added_column(
    draft: DraftView,
    names: Seq<Seq<char>>,
    normalized: bool,
    i: int,
)
    requires
        draft.adds.len() <= names.len(),
        forall|i: int, j: int| 0 <= i < j < draft.adds.len() ==> draft.adds[i].key
            != draft.adds[j].key,
        draft.model.version < u32::MAX,
    ensures
        ({
            let settled = resolved_model(draft, names, normalized);
            let own = draft.model.columns.len() as int;
            &&& settled.columns.len() == own + draft.adds.len()
            &&& 0 <= i < own ==> settled.columns[i] == draft.model.columns[i]
            &&& 0 <= i < draft.adds.len() ==> {
                let added = settled.columns[own + i];
                &&& added.logical == draft.adds[i].logical
                &&& added.nullable == draft.adds[i].nullable
                &&& name_in(draft.model.names, draft.adds[i].key) matches Some(name) ==> added.name
                    == name
                &&& name_in(draft.model.names, draft.adds[i].key) is None ==> added.name == names[i]
                &&& name_in(settled.names, draft.adds[i].key) == Some(added.name)
            }
            &&& forall|key: KeyView|
                name_in(draft.model.names, key) is Some ==> #[trigger] name_in(settled.names, key)
                    == name_in(draft.model.names, key)
            &&& draft.changes.len() > 0 ==> settled.version == draft.model.version + 1
            &&& draft.changes.len() == 0 && (draft.model.version > 0 || !normalized)
                ==> settled.version == draft.model.version
            &&& draft.changes.len() == 0 && draft.model.version == 0 && normalized
                ==> settled.version == 1
        }),
{
    let adds = draft.adds;
    let n = adds.len() as int;
    lemma_with_added(draft.model, adds, names, n);
    if 0 <= i < n {
        let key = adds[i].key;
        assert(adds[i].key == key);
        let more = with_added(draft.model, adds, names, n);
        assert(more.columns[draft.model.columns.len() + i].logical == adds[i].logical);
        let j = choose|j: int| 0 <= j < n && (#[trigger] adds[j]).key == key;
        assert(i == j);
        assert(name_in(more.names, key) is Some);
    }
}

/// Where a kind stands among all of them: nulls, truth values, numbers from the narrowest on, texts
/// and bytes, times, and last what has a form of its own or holds others.
pub open spec fn rank(kind: TypeKind) -> int {
    match kind {
        TypeKind::Null => 0,
        TypeKind::Bool => 1,
        TypeKind::Int8 => 2,
        TypeKind::Int16 => 3,
        TypeKind::Int32 => 4,
        TypeKind::Int64 => 5,
        TypeKind::Float32 => 6,
        TypeKind::Float64 => 7,
        TypeKind::Decimal => 8,
        TypeKind::Utf8 => 9,
        TypeKind::Binary => 10,
        TypeKind::Date => 11,
        TypeKind::Time => 12,
        TypeKind::Timestamp => 13,
        TypeKind::Duration => 14,
        TypeKind::Uuid => 15,
        TypeKind::Json => 16,
        TypeKind::Struct => 17,
        TypeKind::List => 18,
    }
}

/// The column that is the variant of `column` of `kind` holds it as it is.
pub open spec fn variant_holds(model: ModelView, column: ArrivingView, kind: TypeKind) -> bool {
    model.column(variant_key(column, kind)) matches Some(at) && holds(model, column, at)
}

proof fn lemma_variant_before(model: ModelView, column: ArrivingView, n: int, i: int) -> (k: int)
    requires
        0 <= n <= kinds().len(),
        0 <= i < variants(model, column.path, n).len(),
    ensures
        0 <= k < n,
        model.column(variant_key(column, kinds()[k])) == Some(
            variants(model, column.path, n)[i],
        ),
    decreases n,
{
    let before = variants(model, column.path, n - 1);
    if n > 0 && i < before.len() {
        assert(variants(model, column.path, n)[i] == before[i]);
        lemma_variant_before(model, column, n - 1, i)
    } else {
        n - 1
    }
}

proof fn lemma_first_variant(draft: DraftView, column: ArrivingView, n: int, k: int)
    requires
        0 <= k < n <= kinds().len(),
        variant_holds(draft.model, column, kinds()[k]),
        forall|j: int| 0 <= j < k ==> !variant_holds(draft.model, column, #[trigger] kinds()[j]),
    ensures
        crate::search::first_where(
            variants(draft.model, column.path, n),
            column.fits(draft),
        ) matches Some(p) && Some(variants(draft.model, column.path, n)[p]) == draft.model.column(
            variant_key(column, kinds()[k]),
        ),
    decreases n,
{
    let all = variants(draft.model, column.path, n);
    let before = variants(draft.model, column.path, n - 1);
    let fits = column.fits(draft);
    if k < n - 1 {
        lemma_first_variant(draft, column, n - 1, k);
        lemma_first_where(before, fits);
        if all != before {
            assert(all.drop_last() =~= before);
        }
    } else {
        let at = draft.model.column(variant_key(column, kinds()[k]))->0;
        assert(all == before.push(at));
        assert(fits(all[before.len() as int]));
        assert forall|i: int| 0 <= i < before.len() implies !fits(#[trigger] all[i]) by {
            assert(all[i] == before[i]);
            let j = lemma_variant_before(draft.model, column, n - 1, i);
            lemma_column_is_one(draft.model, variant_key(column, kinds()[j]));
            assert(!variant_holds(draft.model, column, kinds()[j]));
        }
        lemma_first_is(all, fits, before.len() as int);
    }
}

/// Where the table's own column does not hold the values, and several variants do, they go to that
/// of the first kind, and change nothing.
pub proof fn law_the_first_kind_that_holds_is_taken(
    capabilities: &Capabilities,
    draft: DraftView,
    column: ArrivingView,
    created: bool,
    original: int,
    kind: TypeKind,
)
    requires
        column.logical != TypeView::Null,
        draft.model.column(KeyView::Source(column.path)) == Some(original),
        !holds(draft.model, column, original),
        variant_holds(draft.model, column, kind),
        forall|other: TypeKind| #[trigger]
            variant_holds(draft.model, column, other) ==> rank(kind) <= rank(other),
    ensures
        routed(capabilities, draft, column, created) == Ok::<(Route, DraftView), CauseView>(
            (
                Route::Column(draft.model.column(variant_key(column, kind))->0 as usize),
                draft,
            ),
        ),
{
    let n = kinds().len() as int;
    let k = rank(kind);
    let fits = column.fits(draft);
    let others = variants(draft.model, column.path, n);
    let all = candidates(draft.model, column.path, original);
    assert(kinds()[k] == kind);
    assert forall|j: int| 0 <= j < k implies !variant_holds(
        draft.model,
        column,
        #[trigger] kinds()[j],
    ) by {
        assert(rank(kinds()[j]) == j);
    }
    lemma_first_variant(draft, column, n, k);
    lemma_first_where(others, fits);
    lemma_column_is_one(draft.model, KeyView::Source(column.path));
    let p = crate::search::first_where(others, fits)->0;
    assert(all[p + 1] == others[p]);
    assert forall|i: int| 0 <= i < p + 1 implies !fits(#[trigger] all[i]) by {
        if i > 0 {
            assert(all[i] == others[i - 1]);
        }
    }
    lemma_first_is(all, fits, p + 1);
}

} // verus!
