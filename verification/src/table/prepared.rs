//! What a batch becomes as rows of its table, over the batch, its routes and the table: which rows
//! and values are dropped, what fills each column, what a merge refuses, and how its rows are
//! ordered.

use crate::table::convert::{conversion, TextForm};
use crate::table::lower::MetaColumn;
use crate::table::lowering::{
    count, discarded_of, first_fault, held_values, is_kept, kept_mask, kept_of, row_kept,
    row_positions, source_of, values_in, Batch, Contents, Fill, KeyFault, Lineage, LoweringPlan,
    MissingLineage, Prepared, Source, Stamp,
};
use crate::table::merge::{big_endian, kept_items, kept_positions, offset_of, sequence_of};
use crate::table::resolve::Route;
use crate::table::types::{field_views, LogicalType, TypeView};
use crate::table::view::TableView;
use vstd::prelude::*;

verus! {

/// Whether the batch's row `row` is dropped: it holds a value in a column whose rows are discarded.
pub open spec fn is_dropped(batch: &Batch, routes: Seq<Route>, row: int) -> bool {
    exists|i: int|
        0 <= i < routes.len() && #[trigger] routes[i] == Route::DiscardRows
            && !batch.columns@[i].nulls@[row]
}

/// Whether `stay` are the rows of the batch that are not dropped, all of them, in their order.
pub open spec fn are_the_rest(batch: &Batch, routes: Seq<Route>, stay: Seq<int>) -> bool {
    &&& forall|k: int, l: int| 0 <= k < l < stay.len() ==> stay[k] < stay[l]
    &&& forall|row: int|
        0 <= row < batch.rows && !is_dropped(batch, routes, row) <==> #[trigger] stay.contains(row)
}

/// Whether the table's column at `column` takes its values from the incoming column at `from`: the
/// last that goes to it.
pub open spec fn feeds(routes: Seq<Route>, from: int, column: int) -> bool {
    &&& 0 <= from < routes.len()
    &&& routes[from] == Route::Column(column as usize)
    &&& forall|k: int|
        from < k < routes.len() ==> #[trigger] routes[k] != Route::Column(column as usize)
}

/// Whether no incoming column goes to the table's column at `column`.
pub open spec fn is_unfed(routes: Seq<Route>, column: int) -> bool {
    forall|k: int|
        0 <= k < routes.len() ==> #[trigger] routes[k] != Route::Column(column as usize)
}

/// The values that the batch's column at `column` holds in the rows up to `row` that are not
/// dropped.
pub open spec fn values_held(batch: &Batch, routes: Seq<Route>, column: int, row: int) -> nat
    decreases row,
{
    if row <= 0 {
        0
    } else if !is_dropped(batch, routes, row - 1) && !batch.columns@[column].nulls@[row - 1] {
        values_held(batch, routes, column, row - 1) + 1
    } else {
        values_held(batch, routes, column, row - 1)
    }
}

/// The values that the first `n` columns hold in rows that are not dropped, of those whose values
/// are discarded.
pub open spec fn values_dropped(batch: &Batch, routes: Seq<Route>, n: int) -> nat
    decreases n,
{
    if n <= 0 {
        0
    } else if routes[n - 1] == Route::DiscardValues {
        values_dropped(batch, routes, n - 1) + values_held(batch, routes, n - 1, batch.rows as int)
    } else {
        values_dropped(batch, routes, n - 1)
    }
}

proof fn lemma_kept(batch: &Batch, routes: Seq<Route>, row: int)
    ensures
        is_kept(batch, routes, row) == !is_dropped(batch, routes, row),
{
    if is_kept(batch, routes, row) && is_dropped(batch, routes, row) {
        let i = choose|i: int|
            0 <= i < routes.len() && #[trigger] routes[i] == Route::DiscardRows
                && !batch.columns@[i].nulls@[row];
        assert(batch.columns@[i].nulls@[row]);
    }
    if !is_dropped(batch, routes, row) {
        assert forall|i: int|
            0 <= i < routes.len() && #[trigger] routes[i] == Route::DiscardRows implies
            batch.columns@[i].nulls@[row] by {}
    }
}

/// The rows that hold, in their order.
spec fn places(rows: Seq<bool>) -> Seq<int>
    decreases rows.len(),
{
    if rows.len() == 0 {
        Seq::empty()
    } else if rows.last() {
        places(rows.drop_last()).push(rows.len() - 1)
    } else {
        places(rows.drop_last())
    }
}

proof fn lemma_places(rows: Seq<bool>)
    ensures
        places(rows).len() == count(rows),
        forall|k: int, l: int|
            0 <= k < l < places(rows).len() ==> places(rows)[k] < places(rows)[l],
        forall|row: int|
            0 <= row < rows.len() && rows[row] <==> #[trigger] places(rows).contains(row),
        forall|k: int|
            0 <= k < places(rows).len() ==> 0 <= #[trigger] places(rows)[k] < rows.len()
                && rows[places(rows)[k]],
    decreases rows.len(),
{
    if rows.len() > 0 {
        let front = rows.drop_last();
        lemma_places(front);
        let before = places(front);
        let all = places(rows);
        let last = rows.len() - 1;
        assert forall|k: int| 0 <= k < all.len() implies 0 <= #[trigger] all[k] < rows.len()
            && rows[all[k]] by {
            if k < before.len() {
                assert(all[k] == before[k]);
                assert(front[before[k]]);
            }
        }
        assert forall|k: int, l: int| 0 <= k < l < all.len() implies all[k] < all[l] by {
            assert(all[k] == before[k]);
            if l < before.len() {
                assert(all[l] == before[l]);
            }
        }
        assert forall|row: int| 0 <= row < rows.len() && rows[row] <==> #[trigger] all.contains(
            row,
        ) by {
            if 0 <= row < rows.len() && rows[row] {
                if row < last {
                    assert(front[row]);
                    assert(before.contains(row));
                    let k = choose|k: int| 0 <= k < before.len() && before[k] == row;
                    assert(all[k] == row);
                } else {
                    assert(all[before.len() as int] == row);
                }
            }
            if all.contains(row) {
                let k = choose|k: int| 0 <= k < all.len() && all[k] == row;
                assert(rows[all[k]]);
            }
        }
    }
}

/// Two orders of the same rows are one.
proof fn lemma_one_order(a: Seq<int>, b: Seq<int>)
    requires
        forall|k: int, l: int| 0 <= k < l < a.len() ==> a[k] < a[l],
        forall|k: int, l: int| 0 <= k < l < b.len() ==> b[k] < b[l],
        forall|row: int| #[trigger] a.contains(row) <==> b.contains(row),
    ensures
        a == b,
    decreases a.len(),
{
    if a.len() == 0 {
        if b.len() > 0 {
            assert(b.contains(b[0]));
            assert(a.contains(b[0]));
        }
        assert(a =~= b);
    } else {
        assert(a.contains(a.last()));
        assert(b.contains(a.last()));
        let k = choose|k: int| 0 <= k < b.len() && b[k] == a.last();
        assert(b.contains(b.last()));
        assert(a.contains(b.last()));
        let l = choose|l: int| 0 <= l < a.len() && a[l] == b.last();
        assert(a.last() == b.last()) by {
            if k < b.len() - 1 {
                assert(b[k] < b[b.len() - 1]);
            }
            if l < a.len() - 1 {
                assert(a[l] < a[a.len() - 1]);
            }
        }
        let (x, y) = (a.drop_last(), b.drop_last());
        assert forall|row: int| #[trigger] x.contains(row) <==> y.contains(row) by {
            if x.contains(row) {
                let i = choose|i: int| 0 <= i < x.len() && x[i] == row;
                assert(a[i] == row && a[i] < a[a.len() - 1]);
                assert(a.contains(row));
                let j = choose|j: int| 0 <= j < b.len() && b[j] == row;
                assert(y[j] == row);
            }
            if y.contains(row) {
                let j = choose|j: int| 0 <= j < y.len() && y[j] == row;
                assert(b[j] == row && b[j] < b[b.len() - 1]);
                assert(b.contains(row));
                assert(a.contains(row));
                let i = choose|i: int| 0 <= i < a.len() && a[i] == row;
                assert(x[i] == row);
            }
        }
        lemma_one_order(x, y);
        assert(a =~= x.push(a.last()));
        assert(b =~= y.push(b.last()));
    }
}

/// The rows that stay are the places of the mask.
proof fn lemma_the_rest(batch: &Batch, routes: Seq<Route>, stay: Seq<int>)
    requires
        are_the_rest(batch, routes, stay),
    ensures
        stay == places(kept_mask(batch, routes)),
        stay.len() == count(kept_mask(batch, routes)),
{
    let mask = kept_mask(batch, routes);
    lemma_places(mask);
    assert forall|row: int| #[trigger] stay.contains(row) <==> places(mask).contains(row) by {
        lemma_kept(batch, routes, row);
        if 0 <= row < batch.rows {
            assert(mask[row] == is_kept(batch, routes, row));
        }
    }
    lemma_one_order(stay, places(mask));
}

/// A batch loses exactly the rows that hold a value in a column whose rows are discarded: they are
/// marked, row by row, and counted; the rest is counted too.
pub proof fn law_rows_with_discarded_changes_are_dropped(
    plan: &LoweringPlan,
    view: &TableView,
    incoming: Seq<LogicalType>,
    batch: &Batch,
    lineage: Option<&Lineage>,
    stamp: Stamp,
    prepared: Prepared,
    stay: Seq<int>,
)
    requires
        plan.prepares(view, incoming, batch, lineage, stamp, Ok(prepared)),
        are_the_rest(batch, plan.routes@, stay),
    ensures
        prepared.discarded_rows + stay.len() == batch.rows,
        match prepared.kept {
            None => stay.len() == batch.rows,
            Some(mask) => mask@.len() == batch.rows && stay.len() < batch.rows && forall|row: int|
                0 <= row < batch.rows ==> #[trigger] mask@[row] == !is_dropped(
                    batch,
                    plan.routes@,
                    row,
                ),
        },
        match prepared.contents {
            Contents::Empty => stay.len() == 0,
            Contents::Rows { rows, .. } => rows == stay.len() && rows > 0,
        },
{
    lemma_the_rest(batch, plan.routes@, stay);
    let mask = kept_mask(batch, plan.routes@);
    lemma_places(mask);
    lemma_count(mask);
    if let Some(kept) = prepared.kept {
        assert(kept@ == mask);
        assert forall|row: int| 0 <= row < batch.rows implies #[trigger] kept@[row] == !is_dropped(
            batch,
            plan.routes@,
            row,
        ) by {
            lemma_kept(batch, plan.routes@, row);
        }
    }
}

proof fn lemma_count(rows: Seq<bool>)
    ensures
        count(rows) <= rows.len(),
    decreases rows.len(),
{
    if rows.len() > 0 {
        lemma_count(rows.drop_last());
    }
}

proof fn lemma_source(routes: Seq<Route>, column: int, n: int)
    requires
        0 <= n <= routes.len(),
        routes.len() <= usize::MAX,
    ensures
        match source_of(routes, column, n) {
            Source::Incoming(from) => from < n && routes[from as int] == Route::Column(
                column as usize,
            ) && forall|k: int|
                from < k < n ==> #[trigger] routes[k] != Route::Column(column as usize),
            Source::Nulls => forall|k: int|
                0 <= k < n ==> #[trigger] routes[k] != Route::Column(column as usize),
        },
    decreases n,
{
    if n > 0 {
        lemma_source(routes, column, n - 1);
    }
}

/// Every column of the table is filled from the last incoming column that goes to it, converted
/// from the incoming type to the table's, and as text where the destination stores another type;
/// and with nulls where none goes to it.
pub proof fn law_columns_are_filled_from_what_goes_to_them(
    plan: &LoweringPlan,
    view: &TableView,
    incoming: Seq<LogicalType>,
    batch: &Batch,
    lineage: Option<&Lineage>,
    stamp: Stamp,
    prepared: Prepared,
    column: int,
)
    requires
        plan.wf(view.model.columns@.len() as int),
        plan.prepares(view, incoming, batch, lineage, stamp, Ok(prepared)),
        plan.routes@.len() <= usize::MAX,
        0 <= column < view.model.columns@.len(),
    ensures
        prepared.contents matches Contents::Rows { fills, .. } ==> {
            let model = field_views(view.model.columns@)[column].logical;
            &&& fills@.len() == view.model.columns@.len()
            &&& match fills@[column] {
                Fill::Nulls => is_unfed(plan.routes@, column),
                Fill::Stored { column: from, how, form } => {
                    &&& feeds(plan.routes@, from as int, column)
                    &&& how@ == conversion(incoming[from as int]@, model)
                    &&& form is None <==> view.lowered@[column]@ == model
                    &&& form matches Some(form) ==> form == (match model {
                        TypeView::Struct(_) => TextForm::Json,
                        TypeView::List(_) => TextForm::Json,
                        TypeView::Json => TextForm::Json,
                        TypeView::Uuid => TextForm::Uuid,
                        TypeView::Binary => TextForm::Hex,
                        _ => TextForm::Rendered,
                    })
                },
            }
        },
{
    lemma_source(plan.routes@, column, plan.routes@.len() as int);
    if let Contents::Rows { fills, .. } = prepared.contents {
        assert(fills@[column] == fills@[column]);
        assert(plan.sources@[column] == source_of(plan.routes@, column, plan.routes@.len() as int));
    }
}

/// Whether the key's column at `column` is whole: the batch has values for it, and no row that
/// stays holds a null in them.
pub open spec fn is_whole(batch: &Batch, routes: Seq<Route>, column: int) -> bool {
    exists|from: int| #[trigger]
        feeds(routes, from, column) && forall|row: int|
            0 <= row < batch.rows && !is_dropped(batch, routes, row)
                ==> !#[trigger] batch.columns@[from].logical@[row]
}

proof fn lemma_column_fault(plan: &LoweringPlan, batch: &Batch, column: usize, width: int)
    requires
        plan.wf(width),
        batch.wf(),
        plan.routes@.len() == batch.columns@.len(),
        plan.routes@.len() <= usize::MAX,
        column < width,
    ensures
        match crate::table::lowering::column_fault(
            batch,
            plan.sources@,
            kept_of(batch, plan.routes@),
            column,
        ) {
            None => is_whole(batch, plan.routes@, column as int),
            Some(KeyFault::Missing(at)) => at == column && is_unfed(plan.routes@, column as int),
            Some(KeyFault::Null(at)) => at == column && !is_whole(
                batch,
                plan.routes@,
                column as int,
            ) && !is_unfed(plan.routes@, column as int),
            Some(KeyFault::Incomplete) => false,
        },
{
    let routes = plan.routes@;
    let n = routes.len() as int;
    lemma_source(routes, column as int, n);
    assert(plan.sources@[column as int] == source_of(routes, column as int, n));
    let kept = kept_of(batch, routes);
    let mask = kept_mask(batch, routes);
    assert forall|row: int| 0 <= row < batch.rows implies #[trigger] row_kept(kept, row)
        == !is_dropped(batch, routes, row) by {
        lemma_kept(batch, routes, row);
        assert(mask[row] == is_kept(batch, routes, row));
        if kept is None {
            lemma_all(mask);
        }
    }
    if let Source::Incoming(from) = plan.sources@[column as int] {
        assert(feeds(routes, from as int, column as int));
        if crate::table::lowering::has_null(batch, from as int, kept) {
            let row = choose|row: int|
                0 <= row < batch.rows && row_kept(kept, row) && #[trigger]
                batch.columns@[from as int].logical@[row];
            assert(!is_dropped(batch, routes, row));
            if is_whole(batch, routes, column as int) {
                let other = choose|other: int| #[trigger]
                    feeds(routes, other, column as int) && forall|row: int|
                        0 <= row < batch.rows && !is_dropped(batch, routes, row)
                            ==> !#[trigger] batch.columns@[other].logical@[row];
                assert(other == from) by {
                    if other < from {
                        assert(routes[from as int] != Route::Column(column));
                    } else if other > from {
                        assert(routes[other] != Route::Column(column));
                    }
                }
                assert(!batch.columns@[other].logical@[row]);
            }
        } else {
            assert forall|row: int|
                0 <= row < batch.rows && !is_dropped(batch, routes, row) implies
                !#[trigger] batch.columns@[from as int].logical@[row] by {
                assert(row_kept(kept, row));
            }
        }
    }
}

proof fn lemma_all(rows: Seq<bool>)
    requires
        count(rows) == rows.len(),
    ensures
        forall|row: int| 0 <= row < rows.len() ==> #[trigger] rows[row],
    decreases rows.len(),
{
    if rows.len() > 0 {
        lemma_count(rows.drop_last());
        lemma_all(rows.drop_last());
        assert forall|row: int| 0 <= row < rows.len() implies #[trigger] rows[row] by {
            if row < rows.len() - 1 {
                assert(rows.drop_last()[row]);
            }
        }
    }
}

proof fn lemma_first_fault(
    plan: &LoweringPlan,
    batch: &Batch,
    key: Seq<usize>,
    width: int,
    n: int,
)
    requires
        plan.wf(width),
        batch.wf(),
        plan.routes@.len() == batch.columns@.len(),
        plan.routes@.len() <= usize::MAX,
        0 <= n <= key.len(),
        forall|i: int| 0 <= i < key.len() ==> #[trigger] key[i] < width,
    ensures
        match first_fault(batch, plan.sources@, kept_of(batch, plan.routes@), key, n) {
            None => forall|i: int|
                0 <= i < n ==> is_whole(batch, plan.routes@, #[trigger] key[i] as int),
            Some(fault) => exists|i: int|
                {
                    &&& 0 <= i < n
                    &&& match fault {
                        KeyFault::Missing(at) => at == #[trigger] key[i] && is_unfed(
                            plan.routes@,
                            at as int,
                        ),
                        KeyFault::Null(at) => at == key[i] && !is_unfed(plan.routes@, at as int)
                            && !is_whole(batch, plan.routes@, at as int),
                        KeyFault::Incomplete => false,
                    }
                    &&& forall|j: int|
                        0 <= j < i ==> is_whole(batch, plan.routes@, #[trigger] key[j] as int)
                },
        },
    decreases n,
{
    if n > 0 {
        lemma_first_fault(plan, batch, key, width, n - 1);
        let last = key[n - 1];
        lemma_column_fault(plan, batch, last, width);
        let kept = kept_of(batch, plan.routes@);
        match first_fault(batch, plan.sources@, kept, key, n - 1) {
            None => {
                assert(key[n - 1] == last);
            },
            Some(fault) => {
                let i = choose|i: int|
                    {
                        &&& 0 <= i < n - 1
                        &&& match fault {
                            KeyFault::Missing(at) => at == #[trigger] key[i] && is_unfed(
                                plan.routes@,
                                at as int,
                            ),
                            KeyFault::Null(at) => at == key[i] && !is_unfed(
                                plan.routes@,
                                at as int,
                            ) && !is_whole(batch, plan.routes@, at as int),
                            KeyFault::Incomplete => false,
                        }
                        &&& forall|j: int|
                            0 <= j < i ==> is_whole(
                                batch,
                                plan.routes@,
                                #[trigger] key[j] as int,
                            )
                    };
                assert(key[i] == key[i]);
            },
        }
    }
}

/// A merge takes a batch only where its key is whole: the table has a column for every part of the
/// key, and in every one of them the rows that stay hold a value. A batch is refused for the first
/// part of its key that is not, and no other table's is.
pub proof fn law_merged_keys_are_whole(
    plan: &LoweringPlan,
    view: &TableView,
    incoming: Seq<LogicalType>,
    batch: &Batch,
    lineage: Option<&Lineage>,
    stamp: Stamp,
    prepared: Result<Prepared, KeyFault>,
)
    requires
        plan.wf(view.model.columns@.len() as int),
        batch.wf(),
        plan.routes@.len() == batch.columns@.len(),
        plan.routes@.len() <= usize::MAX,
        forall|i: int|
            0 <= i < view.key@.len() ==> #[trigger] view.key@[i] < view.model.columns@.len(),
        plan.prepares(view, incoming, batch, lineage, stamp, prepared),
    ensures
        match prepared {
            Ok(prepared) => prepared.contents is Rows && view.table.merge is Some
                ==> view.key@.len() >= view.key_len && forall|i: int|
                0 <= i < view.key@.len() ==> is_whole(
                    batch,
                    plan.routes@,
                    #[trigger] view.key@[i] as int,
                ),
            Err(KeyFault::Incomplete) => view.table.merge is Some && view.key@.len() < view.key_len,
            Err(fault) => view.table.merge is Some && view.key@.len() >= view.key_len
                && exists|i: int|
                {
                    &&& 0 <= i < view.key@.len()
                    &&& match fault {
                        KeyFault::Missing(at) => at == #[trigger] view.key@[i] && is_unfed(
                            plan.routes@,
                            at as int,
                        ),
                        KeyFault::Null(at) => at == view.key@[i] && !is_unfed(
                            plan.routes@,
                            at as int,
                        ) && !is_whole(batch, plan.routes@, at as int),
                        KeyFault::Incomplete => false,
                    }
                    &&& forall|j: int|
                        0 <= j < i ==> is_whole(
                            batch,
                            plan.routes@,
                            #[trigger] view.key@[j] as int,
                        )
                },
        },
{
    lemma_first_fault(
        plan,
        batch,
        view.key@,
        view.model.columns@.len() as int,
        view.key@.len() as int,
    );
}

proof fn lemma_values_held(batch: &Batch, routes: Seq<Route>, column: int, row: int)
    requires
        0 <= row <= batch.rows,
    ensures
        count(held_values(batch, column, kept_of(batch, routes)).take(row)) == values_held(
            batch,
            routes,
            column,
            row,
        ),
    decreases row,
{
    let kept = kept_of(batch, routes);
    let held = held_values(batch, column, kept);
    let mask = kept_mask(batch, routes);
    if row > 0 {
        lemma_values_held(batch, routes, column, row - 1);
        assert(held.take(row).drop_last() =~= held.take(row - 1));
        assert(held.take(row).last() == held[row - 1]);
        lemma_kept(batch, routes, row - 1);
        assert(mask[row - 1] == is_kept(batch, routes, row - 1));
        if kept is None {
            lemma_all(mask);
        }
    } else {
        assert(held.take(0) =~= Seq::<bool>::empty());
    }
}

proof fn lemma_values_dropped(batch: &Batch, routes: Seq<Route>, n: int)
    requires
        0 <= n <= routes.len(),
        routes.len() <= usize::MAX,
    ensures
        ({
            let columns = discarded_of(routes, n);
            values_in(batch, columns, kept_of(batch, routes), columns.len() as int)
                == values_dropped(batch, routes, n)
        }),
    decreases n,
{
    if n > 0 {
        lemma_values_dropped(batch, routes, n - 1);
        let before = discarded_of(routes, n - 1);
        let columns = discarded_of(routes, n);
        let kept = kept_of(batch, routes);
        if routes[n - 1] == Route::DiscardValues {
            lemma_values_alike(batch, before, columns, kept, before.len() as int);
            lemma_values_held(batch, routes, n - 1, batch.rows as int);
            let held = held_values(batch, n - 1, kept);
            assert(held.take(batch.rows as int) =~= held);
        }
    }
}

proof fn lemma_values_alike(
    batch: &Batch,
    a: Seq<usize>,
    b: Seq<usize>,
    kept: Option<Seq<bool>>,
    n: int,
)
    requires
        0 <= n <= a.len() <= b.len(),
        forall|i: int| 0 <= i < a.len() ==> a[i] == b[i],
    ensures
        values_in(batch, a, kept, n) == values_in(batch, b, kept, n),
    decreases n,
{
    if n > 0 {
        lemma_values_alike(batch, a, b, kept, n - 1);
    }
}

/// The values counted as discarded are those that the rows that stay hold in columns whose values
/// are discarded.
pub proof fn law_discarded_values_are_counted(
    plan: &LoweringPlan,
    view: &TableView,
    incoming: Seq<LogicalType>,
    batch: &Batch,
    lineage: Option<&Lineage>,
    stamp: Stamp,
    prepared: Prepared,
)
    requires
        plan.wf(view.model.columns@.len() as int),
        plan.routes@.len() <= usize::MAX,
        plan.prepares(view, incoming, batch, lineage, stamp, Ok(prepared)),
    ensures
        prepared.contents matches Contents::Rows { discarded_values, .. } ==> discarded_values
            == values_dropped(batch, plan.routes@, plan.routes@.len() as int),
{
    lemma_values_dropped(batch, plan.routes@, plan.routes@.len() as int);
}

/// The number that `bytes` write, the greatest of them first.
pub open spec fn number_of(bytes: Seq<u8>) -> nat
    decreases bytes.len(),
{
    if bytes.len() == 0 {
        0
    } else {
        256 * number_of(bytes.drop_last()) + bytes.last() as nat
    }
}

proof fn lemma_number(n: nat, width: nat)
    requires
        n < crate::table::merge::power_of_256(width),
    ensures
        number_of(big_endian(n, width)) == n,
        big_endian(n, width).len() == width,
    decreases width,
{
    if width > 0 {
        lemma_number(n / 256, (width - 1) as nat);
        assert(big_endian(n, width).drop_last() =~= big_endian(n / 256, (width - 1) as nat));
    }
}

/// A row's sequence says which segment it is of, and at which position of it: its first eight bytes
/// and its last eight, the greatest first.
pub proof fn law_sequences_read_back(segment: u64, position: u64)
    ensures
        sequence_of(segment, position).len() == 16,
        number_of(sequence_of(segment, position).take(8)) == segment,
        number_of(sequence_of(segment, position).skip(8)) == position,
{
    reveal_with_fuel(crate::table::merge::power_of_256, 9);
    lemma_number(segment as nat, 8);
    lemma_number(position as nat, 8);
    let whole = sequence_of(segment, position);
    assert(whole.take(8) =~= big_endian(segment as nat, 8));
    assert(whole.skip(8) =~= big_endian(position as nat, 8));
}

proof fn lemma_kept_items<T>(items: Seq<T>, kept: Seq<bool>, k: int)
    requires
        items.len() == kept.len(),
        0 <= k < places(kept).len(),
    ensures
        kept_items(items, kept).len() == places(kept).len(),
        0 <= places(kept)[k] < items.len(),
        kept_items(items, kept)[k] == items[places(kept)[k]],
{
    lemma_places(kept);
    assert(items.take(items.len() as int) =~= items);
    assert(kept.take(kept.len() as int) =~= kept);
    lemma_kept_items_len(items, kept, items.len() as int);
    lemma_kept_items_to(items, kept, items.len() as int, k);
}

proof fn lemma_kept_items_len<T>(items: Seq<T>, kept: Seq<bool>, n: int)
    requires
        items.len() == kept.len(),
        0 <= n <= items.len(),
    ensures
        kept_items(items.take(n), kept).len() == places(kept.take(n)).len(),
    decreases n,
{
    if n > 0 {
        lemma_kept_items_len(items, kept, n - 1);
        assert(items.take(n).drop_last() =~= items.take(n - 1));
        assert(kept.take(n).drop_last() =~= kept.take(n - 1));
        assert(kept.take(n).last() == kept[n - 1]);
    }
}

proof fn lemma_kept_items_to<T>(items: Seq<T>, kept: Seq<bool>, n: int, k: int)
    requires
        items.len() == kept.len(),
        0 <= n <= items.len(),
        0 <= k < places(kept.take(n)).len(),
    ensures
        kept_items(items.take(n), kept)[k] == items[places(kept.take(n))[k]],
    decreases n,
{
    if n > 0 {
        lemma_kept_items_len(items, kept, n - 1);
        assert(items.take(n).drop_last() =~= items.take(n - 1));
        assert(kept.take(n).drop_last() =~= kept.take(n - 1));
        assert(items.take(n).last() == items[n - 1]);
        assert(kept.take(n).last() == kept[n - 1]);
        if k < places(kept.take(n - 1)).len() {
            lemma_kept_items_to(items, kept, n - 1, k);
        }
    }
}

proof fn lemma_kept_positions(kept: Seq<bool>, k: int)
    requires
        kept.len() <= u32::MAX + 1,
        0 <= k < places(kept).len(),
    ensures
        kept_positions(kept).len() == places(kept).len(),
        kept_positions(kept)[k] == places(kept)[k],
    decreases kept.len(),
{
    let front = kept.drop_last();
    if places(front).len() > 0 {
        lemma_kept_positions(front, if k < places(front).len() {
            k
        } else {
            0
        });
    } else {
        lemma_none_kept(front);
    }
}

proof fn lemma_none_kept(kept: Seq<bool>)
    requires
        places(kept).len() == 0,
    ensures
        kept_positions(kept).len() == 0,
    decreases kept.len(),
{
    if kept.len() > 0 {
        lemma_none_kept(kept.drop_last());
    }
}

/// Every row of a merge table that stays has its own sequence: its segment's, and its position among
/// the segment's rows, which is the position of its root among the rows received where its stream
/// normalizes, and its own else, dropped rows counted.
pub proof fn law_rows_are_sequenced_as_they_were_received(
    plan: &LoweringPlan,
    view: &TableView,
    incoming: Seq<LogicalType>,
    batch: &Batch,
    lineage: Option<&Lineage>,
    stamp: Stamp,
    prepared: Prepared,
    stay: Seq<int>,
    k: int,
)
    requires
        plan.prepares(view, incoming, batch, lineage, stamp, Ok(prepared)),
        are_the_rest(batch, plan.routes@, stay),
        lineage matches Some(lineage) ==> lineage.root_row@.len() == batch.rows,
        batch.rows <= u32::MAX,
        0 <= k < stay.len(),
    ensures
        prepared.contents matches Contents::Rows { sequences, .. } ==> {
            &&& sequences is Some == view.meta.seq is Some
            &&& sequences matches Some(sequences) ==> {
                &&& sequences@.len() == stay.len()
                &&& sequences@[k]@ == sequence_of(
                    stamp.segment,
                    (stamp.first_row + match lineage {
                        Some(lineage) => lineage.root_row@[stay[k]] as int,
                        None => stay[k],
                    }) as u64,
                )
            }
        },
{
    let routes = plan.routes@;
    let mask = kept_mask(batch, routes);
    let kept = kept_of(batch, routes);
    lemma_the_rest(batch, routes, stay);
    lemma_places(mask);
    if let Contents::Rows { sequences, .. } = prepared.contents {
        if let Some(sequences) = sequences {
            assert(sequences@[k]@ == sequence_of(
                stamp.segment,
                (stamp.first_row + offset_of(k, row_positions(lineage, kept))) as u64,
            ));
            match kept {
                Some(kept) => {
                    match lineage {
                        Some(lineage) => lemma_kept_items(lineage.root_row@, kept, k),
                        None => lemma_kept_positions(kept, k),
                    }
                },
                None => {
                    lemma_all(mask);
                    lemma_places_of_all(mask);
                },
            }
        }
    }
}

proof fn lemma_places_of_all(rows: Seq<bool>)
    requires
        forall|row: int| 0 <= row < rows.len() ==> #[trigger] rows[row],
    ensures
        places(rows).len() == rows.len(),
        forall|k: int| 0 <= k < rows.len() ==> #[trigger] places(rows)[k] == k,
    decreases rows.len(),
{
    if rows.len() > 0 {
        let front = rows.drop_last();
        assert forall|row: int| 0 <= row < front.len() implies #[trigger] front[row] by {
            assert(rows[row]);
        }
        lemma_places_of_all(front);
        assert(rows[rows.len() - 1]);
    }
}

/// A table's rows have the lineage its columns are for: none where its stream does not normalize,
/// their ids where it does, and their parents', roots' and positions behind them in a child table;
/// a batch that lacks what its table has columns for is told so. Only merges by a table's own key
/// keep the last row of each: a child table's rows follow their root's.
pub proof fn law_lineage_is_what_the_table_has_columns_for(
    plan: &LoweringPlan,
    view: &TableView,
    incoming: Seq<LogicalType>,
    batch: &Batch,
    lineage: Option<&Lineage>,
    stamp: Stamp,
    prepared: Prepared,
)
    requires
        plan.prepares(view, incoming, batch, lineage, stamp, Ok(prepared)),
    ensures
        prepared.contents matches Contents::Rows { lineage: columns, compacts, .. } ==> {
            &&& match columns {
                Ok(columns) => {
                    &&& view.meta.id is None ==> columns@.len() == 0
                    &&& view.meta.id is Some ==> lineage is Some && columns@.len() >= 1
                        && columns@[0] == MetaColumn::Id
                    &&& view.meta.id is Some && view.meta.parent is None ==> columns@.len() == 1
                    &&& view.meta.id is Some && view.meta.parent is Some ==> {
                        &&& lineage->0.parent
                        &&& columns@.len() == 4
                        &&& columns@[1] == MetaColumn::ParentId
                        &&& columns@[2] == MetaColumn::RootId
                        &&& columns@[3] == MetaColumn::Idx
                    }
                },
                Err(MissingLineage::Normalized) => view.meta.id is Some && lineage is None,
                Err(MissingLineage::Child) => view.meta.id is Some && view.meta.parent is Some
                    && lineage is Some && !lineage->0.parent,
            }
            &&& compacts <==> view.table.merge is Some && view.table.merge->0.root is None
        },
{
}

} // verus!
