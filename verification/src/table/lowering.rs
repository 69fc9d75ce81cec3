//! Lowering plans: how batches of one incoming schema become rows of one table view, worked out
//! once and applied to every batch — discards, exact conversions, lowering, metadata columns and,
//! for merge tables, the sequence column and compaction.

use crate::error::{Error, ErrorKind};
use crate::table::convert::{conversion, convert, stored_form, text_form_of, Conversion, TextForm};
use crate::table::lower::{MetaColumn, MetaNames};
use crate::table::merge::{
    kept_items, kept_positions, kept_rows, offset_of, positions, sequence, sequence_of,
};
use crate::table::resolve::Route;
use crate::table::types::{field_views, lemma_field_views, LogicalType};
use crate::table::view::TableView;
use vstd::prelude::*;
use vstd::string::*;

verus! {

/// Which rows of one column hold no value.
#[derive(Debug)]
pub struct ColumnNulls {
    /// As the column's validity says.
    pub nulls: Vec<bool>,
    /// As the values it encodes say: a dictionary's row is null where its value is.
    pub logical: Vec<bool>,
}

/// A batch, as far as what becomes of it depends on it.
#[derive(Debug)]
pub struct Batch {
    pub rows: usize,
    /// Its columns, in the order of its schema.
    pub columns: Vec<ColumnNulls>,
}

impl Batch {
    /// Whether every column speaks of every row.
    pub open spec fn wf(&self) -> bool {
        forall|i: int|
            0 <= i < self.columns@.len() ==> (#[trigger] self.columns@[i]).nulls@.len() == self.rows
                && self.columns@[i].logical@.len() == self.rows
    }
}

/// Whether a row is kept: it holds no value in a column whose rows are discarded.
pub open spec fn is_kept(batch: &Batch, routes: Seq<Route>, row: int) -> bool {
    forall|i: int|
        0 <= i < routes.len() && #[trigger] routes[i] == Route::DiscardRows
            ==> batch.columns@[i].nulls@[row]
}

/// Which rows are kept.
pub open spec fn kept_mask(batch: &Batch, routes: Seq<Route>) -> Seq<bool> {
    Seq::new(batch.rows as nat, |row: int| is_kept(batch, routes, row))
}

/// How many of `rows` hold.
pub open spec fn count(rows: Seq<bool>) -> nat
    decreases rows.len(),
{
    if rows.len() == 0 {
        0
    } else {
        count(rows.drop_last()) + (if rows.last() {
            1nat
        } else {
            0nat
        })
    }
}

proof fn lemma_count_bound(rows: Seq<bool>)
    ensures
        count(rows) <= rows.len(),
    decreases rows.len(),
{
    if rows.len() > 0 {
        lemma_count_bound(rows.drop_last());
    }
}

/// How many rows hold.
fn counted(rows: &Vec<bool>) -> (total: usize)
    ensures
        total == count(rows@),
        total <= rows@.len(),
{
    let mut total: usize = 0;
    let mut at: usize = 0;
    assert(rows@.take(0) =~= Seq::<bool>::empty());
    while at < rows.len()
        invariant
            at <= rows@.len(),
            total == count(rows@.take(at as int)),
            total <= at,
        decreases rows@.len() - at,
    {
        proof {
            assert(rows@.take(at + 1).drop_last() =~= rows@.take(at as int));
            assert(rows@.take(at + 1).last() == rows@[at as int]);
        }
        if rows[at] {
            total = total + 1;
        }
        at = at + 1;
    }
    assert(rows@.take(at as int) =~= rows@);
    total
}

/// Whether a row is kept.
fn keeps(batch: &Batch, routes: &Vec<Route>, row: usize) -> (kept: bool)
    requires
        batch.wf(),
        row < batch.rows,
        routes@.len() <= batch.columns@.len(),
    ensures
        kept == is_kept(batch, routes@, row as int),
{
    let mut at: usize = 0;
    while at < routes.len()
        invariant
            at <= routes@.len() <= batch.columns@.len(),
            batch.wf(),
            row < batch.rows,
            forall|i: int|
                0 <= i < at && #[trigger] routes@[i] == Route::DiscardRows
                    ==> batch.columns@[i].nulls@[row as int],
        decreases routes@.len() - at,
    {
        if routes[at] == Route::DiscardRows {
            assert(batch.columns@[at as int].nulls@.len() == batch.rows);
            if !batch.columns[at].nulls[row] {
                assert(routes@[at as int] == Route::DiscardRows);
                return false;
            }
        }
        at = at + 1;
    }
    true
}

/// The rows kept of a batch, where they are not all of them.
pub open spec fn kept_of(batch: &Batch, routes: Seq<Route>) -> Option<Seq<bool>> {
    let mask = kept_mask(batch, routes);
    if count(mask) == batch.rows {
        None
    } else {
        Some(mask)
    }
}

/// Which rows are kept, where some are not.
pub open spec fn mask_view(kept: Option<Vec<bool>>) -> Option<Seq<bool>> {
    match kept {
        Some(kept) => Some(kept@),
        None => None,
    }
}

/// `batch` without the rows holding a value in a column routed to [`Route::DiscardRows`]: which
/// rows are kept, where some are not, and how many are dropped.
pub fn discard_rows(batch: &Batch, routes: &Vec<Route>) -> (discarded: (Option<Vec<bool>>, u64))
    requires
        batch.wf(),
        routes@.len() <= batch.columns@.len(),
    ensures
        mask_view(discarded.0) == kept_of(batch, routes@),
        discarded.1 == batch.rows - count(kept_mask(batch, routes@)),
{
    let mut kept: Vec<bool> = Vec::new();
    let mut row: usize = 0;
    while row < batch.rows
        invariant
            row <= batch.rows,
            batch.wf(),
            routes@.len() <= batch.columns@.len(),
            kept@.len() == row,
            forall|i: int| 0 <= i < row ==> #[trigger] kept@[i] == is_kept(batch, routes@, i),
        decreases batch.rows - row,
    {
        kept.push(keeps(batch, routes, row));
        row = row + 1;
    }
    assert(kept@ =~= kept_mask(batch, routes@));
    let total: usize = counted(&kept);
    if total == batch.rows {
        (None, 0)
    } else {
        (Some(kept), (batch.rows - total) as u64)
    }
}

/// Where one of the view's columns takes its values from.
#[derive(Clone, Copy, Debug, PartialEq, Eq, Structural)]
pub enum Source {
    /// The incoming column at this position.
    Incoming(usize),
    /// Nowhere: the batch has no values for the column.
    Nulls,
}

/// Where the table's column at `column` takes its values from, by the first `n` of `routes`: the
/// last incoming column that goes to it.
pub open spec fn source_of(routes: Seq<Route>, column: int, n: int) -> Source
    decreases n,
{
    if n <= 0 {
        Source::Nulls
    } else if routes[n - 1] == Route::Column(column as usize) {
        Source::Incoming((n - 1) as usize)
    } else {
        source_of(routes, column, n - 1)
    }
}

/// The first `n` incoming columns whose values are discarded.
pub open spec fn discarded_of(routes: Seq<Route>, n: int) -> Seq<usize>
    decreases n,
{
    if n <= 0 {
        Seq::empty()
    } else {
        let before = discarded_of(routes, n - 1);
        if routes[n - 1] == Route::DiscardValues {
            before.push((n - 1) as usize)
        } else {
            before
        }
    }
}

/// How batches of one incoming schema become rows of one table view, worked out once.
#[derive(Debug)]
pub struct LoweringPlan {
    pub routes: Vec<Route>,
    /// Where each of the view's columns takes its values from, in the view's order.
    pub sources: Vec<Source>,
    /// The incoming columns whose values the schema policy discards.
    pub discarded: Vec<usize>,
}

impl LoweringPlan {
    /// Whether the plan sends batches by its routes to a table of `width` columns.
    pub open spec fn wf(&self, width: int) -> bool {
        let n = self.routes@.len() as int;
        &&& self.sources@.len() == width
        &&& forall|c: int|
            0 <= c < width ==> #[trigger] self.sources@[c] == source_of(self.routes@, c, n)
        &&& self.discarded@ == discarded_of(self.routes@, n)
    }

    /// The plan lowering batches that `routes` sends to a table of `width` columns.
    pub fn new(routes: Vec<Route>, width: usize) -> (plan: LoweringPlan)
        requires
            forall|i: int|
                0 <= i < routes@.len() ==> (#[trigger] routes@[i] matches Route::Column(column)
                    ==> column < width),
        ensures
            plan.routes == routes,
            plan.wf(width as int),
    {
        let mut sources: Vec<Source> = Vec::new();
        let mut column: usize = 0;
        while column < width
            invariant
                column <= width,
                sources@.len() == column,
                forall|c: int| 0 <= c < column ==> #[trigger] sources@[c] == Source::Nulls,
            decreases width - column,
        {
            sources.push(Source::Nulls);
            column = column + 1;
        }
        let mut discarded: Vec<usize> = Vec::new();
        let mut at: usize = 0;
        while at < routes.len()
            invariant
                at <= routes@.len(),
                sources@.len() == width,
                forall|i: int|
                    0 <= i < routes@.len() ==> (#[trigger] routes@[i] matches Route::Column(column)
                        ==> column < width),
                forall|c: int|
                    0 <= c < width ==> #[trigger] sources@[c] == source_of(routes@, c, at as int),
                discarded@ == discarded_of(routes@, at as int),
            decreases routes@.len() - at,
        {
            match routes[at] {
                Route::Column(column) => {
                    assert(routes@[at as int] matches Route::Column(c) && c < width);
                    sources.set(column, Source::Incoming(at));
                },
                Route::DiscardValues => discarded.push(at),
                Route::DiscardRows => {},
                Route::Skip => {},
            }
            at = at + 1;
        }
        LoweringPlan { routes, sources, discarded }
    }
}

/// Whether a row is among those kept.
pub open spec fn row_kept(kept: Option<Seq<bool>>, row: int) -> bool {
    match kept {
        Some(kept) => kept[row],
        None => true,
    }
}

/// Which of the kept rows hold a value in the column at `column`.
pub open spec fn held_values(batch: &Batch, column: int, kept: Option<Seq<bool>>) -> Seq<bool> {
    Seq::new(
        batch.rows as nat,
        |row: int| row_kept(kept, row) && !batch.columns@[column].nulls@[row],
    )
}

/// How many values the kept rows hold in the first `n` of `columns`.
pub open spec fn values_in(
    batch: &Batch,
    columns: Seq<usize>,
    kept: Option<Seq<bool>>,
    n: int,
) -> nat
    decreases n,
{
    if n <= 0 {
        0
    } else {
        values_in(batch, columns, kept, n - 1) + count(
            held_values(batch, columns[n - 1] as int, kept),
        )
    }
}

/// Whether a row is among those kept.
fn is_row_kept(kept: &Option<Vec<bool>>, row: usize) -> (is_kept: bool)
    requires
        kept matches Some(kept) ==> row < kept@.len(),
    ensures
        is_kept == row_kept(mask_view(*kept), row as int),
{
    match kept {
        Some(kept) => kept[row],
        None => true,
    }
}

/// How many values the kept rows hold in the column at `column`.
fn count_values(batch: &Batch, column: usize, kept: &Option<Vec<bool>>) -> (total: usize)
    requires
        batch.wf(),
        column < batch.columns@.len(),
        kept matches Some(kept) ==> kept@.len() == batch.rows,
    ensures
        total == count(held_values(batch, column as int, mask_view(*kept))),
        total <= batch.rows,
{
    let mut held: Vec<bool> = Vec::new();
    let mut row: usize = 0;
    assert(batch.columns@[column as int].nulls@.len() == batch.rows);
    while row < batch.rows
        invariant
            row <= batch.rows,
            column < batch.columns@.len(),
            batch.columns@[column as int].nulls@.len() == batch.rows,
            kept matches Some(kept) ==> kept@.len() == batch.rows,
            held@.len() == row,
            forall|i: int|
                0 <= i < row ==> #[trigger] held@[i] == (row_kept(mask_view(*kept), i)
                    && !batch.columns@[column as int].nulls@[i]),
        decreases batch.rows - row,
    {
        held.push(is_row_kept(kept, row) && !batch.columns[column].nulls[row]);
        row = row + 1;
    }
    assert(held@ =~= held_values(batch, column as int, mask_view(*kept)));
    counted(&held)
}

/// Every incoming column whose values are discarded is one.
proof fn lemma_discarded_are_columns(routes: Seq<Route>, n: int)
    requires
        0 <= n <= routes.len(),
        routes.len() <= usize::MAX,
    ensures
        discarded_of(routes, n).len() <= n,
        forall|i: int|
            0 <= i < discarded_of(routes, n).len() ==> #[trigger] discarded_of(routes, n)[i] < n,
    decreases n,
{
    if n > 0 {
        lemma_discarded_are_columns(routes, n - 1);
        let before = discarded_of(routes, n - 1);
        assert forall|i: int| 0 <= i < discarded_of(routes, n).len() implies #[trigger] discarded_of(
            routes,
            n,
        )[i] < n by {
            if i < before.len() {
                assert(discarded_of(routes, n)[i] == before[i]);
            }
        }
    }
}

/// Every source is an incoming column.
proof fn lemma_source_is_a_column(routes: Seq<Route>, column: int, n: int)
    requires
        0 <= n <= routes.len(),
        routes.len() <= usize::MAX,
    ensures
        source_of(routes, column, n) matches Source::Incoming(at) ==> at < n,
    decreases n,
{
    if n > 0 {
        lemma_source_is_a_column(routes, column, n - 1);
    }
}

/// Why a merge batch is refused.
#[derive(Clone, Copy, Debug, PartialEq, Eq, Structural)]
pub enum KeyFault {
    /// The table has no column for part of the key.
    Incomplete,
    /// The batch has no values for the key's column at this position.
    Missing(usize),
    /// The key's column at this position holds a null.
    Null(usize),
}

/// Whether a kept row holds a null in the column at `column`.
pub open spec fn has_null(batch: &Batch, column: int, kept: Option<Seq<bool>>) -> bool {
    exists|row: int|
        0 <= row < batch.rows && row_kept(kept, row) && #[trigger]
        batch.columns@[column].logical@[row]
}

/// What is wrong with the key's column at `column`.
pub open spec fn column_fault(
    batch: &Batch,
    sources: Seq<Source>,
    kept: Option<Seq<bool>>,
    column: usize,
) -> Option<KeyFault> {
    match sources[column as int] {
        Source::Nulls => Some(KeyFault::Missing(column)),
        Source::Incoming(at) => if has_null(batch, at as int, kept) {
            Some(KeyFault::Null(column))
        } else {
            None
        },
    }
}

/// What is wrong with the first of the first `n` columns of the key that something is wrong with.
pub open spec fn first_fault(
    batch: &Batch,
    sources: Seq<Source>,
    kept: Option<Seq<bool>>,
    key: Seq<usize>,
    n: int,
) -> Option<KeyFault>
    decreases n,
{
    if n <= 0 {
        None
    } else {
        match first_fault(batch, sources, kept, key, n - 1) {
            Some(fault) => Some(fault),
            None => column_fault(batch, sources, kept, key[n - 1]),
        }
    }
}

/// What is wrong with a batch's key, in a merge table.
pub open spec fn key_fault(
    batch: &Batch,
    sources: Seq<Source>,
    kept: Option<Seq<bool>>,
    view: &TableView,
) -> Option<KeyFault> {
    if view.table.merge is None {
        None
    } else if view.key@.len() < view.key_len {
        Some(KeyFault::Incomplete)
    } else {
        first_fault(batch, sources, kept, view.key@, view.key@.len() as int)
    }
}

proof fn lemma_first_fault_stays(
    batch: &Batch,
    sources: Seq<Source>,
    kept: Option<Seq<bool>>,
    key: Seq<usize>,
    n: int,
    all: int,
)
    requires
        n <= all,
        first_fault(batch, sources, kept, key, n) is Some,
    ensures
        first_fault(batch, sources, kept, key, all) == first_fault(batch, sources, kept, key, n),
    decreases all - n,
{
    if n < all {
        lemma_first_fault_stays(batch, sources, kept, key, n, all - 1);
    }
}

/// Whether a kept row holds a null in the column at `column`.
fn holds_null(batch: &Batch, column: usize, kept: &Option<Vec<bool>>) -> (null: bool)
    requires
        batch.wf(),
        column < batch.columns@.len(),
        kept matches Some(kept) ==> kept@.len() == batch.rows,
    ensures
        null == has_null(batch, column as int, mask_view(*kept)),
{
    assert(batch.columns@[column as int].logical@.len() == batch.rows);
    let mut row: usize = 0;
    while row < batch.rows
        invariant
            row <= batch.rows,
            column < batch.columns@.len(),
            batch.columns@[column as int].logical@.len() == batch.rows,
            kept matches Some(kept) ==> kept@.len() == batch.rows,
            forall|i: int|
                0 <= i < row && row_kept(mask_view(*kept), i)
                    ==> !#[trigger] batch.columns@[column as int].logical@[i],
        decreases batch.rows - row,
    {
        if is_row_kept(kept, row) && batch.columns[column].logical[row] {
            return true;
        }
        row = row + 1;
    }
    false
}

/// Refuses a merge batch that lacks a key column or holds a null key.
pub fn check_key(
    view: &TableView,
    batch: &Batch,
    sources: &Vec<Source>,
    kept: &Option<Vec<bool>>,
) -> (checked: Result<(), KeyFault>)
    requires
        batch.wf(),
        kept matches Some(kept) ==> kept@.len() == batch.rows,
        forall|i: int| 0 <= i < view.key@.len() ==> #[trigger] view.key@[i] < sources@.len(),
        forall|c: int|
            0 <= c < sources@.len() ==> (#[trigger] sources@[c] matches Source::Incoming(at) ==> at
                < batch.columns@.len()),
    ensures
        match checked {
            Ok(_) => key_fault(batch, sources@, mask_view(*kept), view) is None,
            Err(fault) => key_fault(batch, sources@, mask_view(*kept), view) == Some(fault),
        },
{
    if view.table.merge.is_none() {
        return Ok(());
    }
    if view.key.len() < view.key_len {
        return Err(KeyFault::Incomplete);
    }
    let ghost mask = mask_view(*kept);
    let mut at: usize = 0;
    while at < view.key.len()
        invariant
            at <= view.key@.len(),
            batch.wf(),
            mask == mask_view(*kept),
            view.table.merge is Some,
            view.key@.len() >= view.key_len,
            kept matches Some(kept) ==> kept@.len() == batch.rows,
            forall|i: int| 0 <= i < view.key@.len() ==> #[trigger] view.key@[i] < sources@.len(),
            forall|c: int|
                0 <= c < sources@.len() ==> (#[trigger] sources@[c] matches Source::Incoming(at)
                    ==> at < batch.columns@.len()),
            first_fault(batch, sources@, mask, view.key@, at as int) is None,
        decreases view.key@.len() - at,
    {
        let column: usize = view.key[at];
        assert(view.key@[at as int] < sources@.len());
        let fault: Option<KeyFault> = match sources[column] {
            Source::Nulls => Some(KeyFault::Missing(column)),
            Source::Incoming(index) => {
                assert(sources@[column as int] matches Source::Incoming(i) && i
                    < batch.columns@.len());
                if holds_null(batch, index, kept) {
                    Some(KeyFault::Null(column))
                } else {
                    None
                }
            },
        };
        if let Some(fault) = fault {
            proof {
                lemma_first_fault_stays(
                    batch,
                    sources@,
                    mask,
                    view.key@,
                    at + 1,
                    view.key@.len() as int,
                );
            }
            return Err(fault);
        }
        at = at + 1;
    }
    Ok(())
}

impl KeyFault {
    /// Which part of a run the refusal comes from: the batch, which its table cannot take.
    pub fn kind(&self) -> (kind: ErrorKind)
        ensures
            kind == ErrorKind::Schema,
    {
        ErrorKind::Schema
    }

    /// The fault's code.
    pub fn code(&self) -> (code: &'static str)
        ensures
            code@ == match *self {
                KeyFault::Incomplete => "merge_key_missing"@,
                KeyFault::Missing(_) => "merge_key_missing"@,
                KeyFault::Null(_) => "merge_key_null"@,
            },
    {
        match self {
            KeyFault::Incomplete => "merge_key_missing",
            KeyFault::Missing(_) => "merge_key_missing",
            KeyFault::Null(_) => "merge_key_null",
        }
    }

    /// The fault as text, `name` being the identifier of the column it is about.
    pub open spec fn text(self, stream: Seq<char>, name: Seq<char>) -> Seq<char> {
        "stream "@ + stream + ": "@ + match self {
            KeyFault::Incomplete => "the table has no column for part of the merge key"@,
            KeyFault::Missing(_) => "a batch has no key column "@ + name,
            KeyFault::Null(_) => "key column "@ + name + " holds a null"@,
        }
    }

    /// The fault as text, `name` being the identifier of the column it is about.
    pub fn message(&self, stream: &str, name: &str) -> (text: String)
        ensures
            text@ == self.text(stream@, name@),
    {
        let mut text = String::new();
        text.append("stream ");
        text.append(stream);
        text.append(": ");
        match self {
            KeyFault::Incomplete => text.append("the table has no column for part of the merge key"),
            KeyFault::Missing(_) => {
                text.append("a batch has no key column ");
                text.append(name);
            },
            KeyFault::Null(_) => {
                text.append("key column ");
                text.append(name);
                text.append(" holds a null");
            },
        }
        assert(text@ =~= self.text(stream@, name@));
        text
    }
}

/// What one of the table's columns is filled with.
#[derive(Debug)]
pub enum Fill {
    /// The values of the incoming column at `column`, converted, and as text where the destination
    /// stores them so.
    Stored { column: usize, how: Conversion, form: Option<TextForm> },
    /// Nulls.
    Nulls,
}

/// Whether `fill` is what the table's column at `column` is filled with.
pub open spec fn is_fill(
    fill: Fill,
    column: int,
    view: &TableView,
    incoming: Seq<LogicalType>,
    sources: Seq<Source>,
) -> bool {
    let model = field_views(view.model.columns@)[column].logical;
    match (sources[column], fill) {
        (Source::Nulls, Fill::Nulls) => true,
        (Source::Incoming(at), Fill::Stored { column: from, how, form }) => {
            &&& from == at
            &&& how@ == conversion(incoming[at as int]@, model)
            &&& form == if view.lowered@[column]@ == model {
                None
            } else {
                Some(text_form_of(model))
            }
        },
        _ => false,
    }
}

/// What each of the view's columns is filled with.
pub fn fills(view: &TableView, incoming: &Vec<LogicalType>, sources: &Vec<Source>) -> (fills: Vec<
    Fill,
>)
    requires
        sources@.len() == view.model.columns@.len(),
        view.lowered@.len() == view.model.columns@.len(),
        forall|c: int|
            0 <= c < sources@.len() ==> (#[trigger] sources@[c] matches Source::Incoming(at) ==> at
                < incoming@.len()),
    ensures
        fills@.len() == sources@.len(),
        forall|c: int|
            0 <= c < sources@.len() ==> is_fill(
                #[trigger] fills@[c],
                c,
                view,
                incoming@,
                sources@,
            ),
{
    proof {
        lemma_field_views(view.model.columns@);
    }
    let mut fills: Vec<Fill> = Vec::new();
    let mut at: usize = 0;
    while at < sources.len()
        invariant
            at <= sources@.len(),
            sources@.len() == view.model.columns@.len(),
            view.lowered@.len() == view.model.columns@.len(),
            forall|c: int|
                0 <= c < sources@.len() ==> (#[trigger] sources@[c] matches Source::Incoming(at)
                    ==> at < incoming@.len()),
            forall|i: int|
                0 <= i < view.model.columns@.len() ==> #[trigger] field_views(
                    view.model.columns@,
                )[i] == view.model.columns@[i]@,
            fills@.len() == at,
            forall|c: int|
                0 <= c < at ==> is_fill(#[trigger] fills@[c], c, view, incoming@, sources@),
        decreases sources@.len() - at,
    {
        let fill: Fill = match sources[at] {
            Source::Nulls => Fill::Nulls,
            Source::Incoming(column) => {
                assert(sources@[at as int] matches Source::Incoming(i) && i < incoming@.len());
                assert(field_views(view.model.columns@)[at as int]
                    == view.model.columns@[at as int]@);
                let model: &LogicalType = &view.model.columns[at].logical;
                Fill::Stored {
                    column,
                    how: convert(&incoming[column], model),
                    form: stored_form(model, &view.lowered[at]),
                }
            },
        };
        fills.push(fill);
        at = at + 1;
    }
    fills
}

/// Where the rows of a normalized stream's batch come from.
#[derive(Debug)]
pub struct Lineage {
    /// The position of each row's root among the rows received.
    pub root_row: Vec<u32>,
    /// Whether the rows have parents, as a child table's do.
    pub parent: bool,
}

/// A batch that lacks the lineage its table has columns for.
#[derive(Clone, Copy, Debug, PartialEq, Eq, Structural)]
pub enum MissingLineage {
    /// A normalized table's batch has none.
    Normalized,
    /// A child table's batch has no parents.
    Child,
}

impl MissingLineage {
    /// The fault as text.
    pub open spec fn text(self, stream: Seq<char>) -> Seq<char> {
        "stream "@ + stream + ": a "@ + match self {
            MissingLineage::Normalized => "normalized table's"@,
            MissingLineage::Child => "child table's"@,
        } + " batch has no lineage"@
    }

    /// Which part of a run the fault comes from: the engine itself, which normalized the batch.
    pub fn kind(&self) -> (kind: ErrorKind)
        ensures
            kind == ErrorKind::Internal,
    {
        ErrorKind::Internal
    }

    /// The fault as text.
    pub fn message(&self, stream: &str) -> (text: String)
        ensures
            text@ == self.text(stream@),
    {
        let mut text = String::new();
        text.append("stream ");
        text.append(stream);
        text.append(": a ");
        match self {
            MissingLineage::Normalized => text.append("normalized table's"),
            MissingLineage::Child => text.append("child table's"),
        }
        text.append(" batch has no lineage");
        assert(text@ =~= self.text(stream@));
        text
    }
}

/// The lineage columns of a table's rows: none for a stream that does not normalize; `lineage`
/// says whether the rows have lineage, and parents.
pub open spec fn lineage_of(meta: &MetaNames, lineage: Option<bool>) -> Result<
    Seq<MetaColumn>,
    MissingLineage,
> {
    if meta.id is None {
        Ok(Seq::empty())
    } else {
        match lineage {
            None => Err(MissingLineage::Normalized),
            Some(parent) => if meta.parent is None {
                Ok(seq![MetaColumn::Id])
            } else if !parent {
                Err(MissingLineage::Child)
            } else {
                Ok(
                    seq![
                        MetaColumn::Id,
                        MetaColumn::ParentId,
                        MetaColumn::RootId,
                        MetaColumn::Idx,
                    ],
                )
            },
        }
    }
}

/// Whether rows have lineage, and parents.
pub open spec fn parents_in(lineage: Option<&Lineage>) -> Option<bool> {
    match lineage {
        Some(lineage) => Some(lineage.parent),
        None => None,
    }
}

/// The lineage columns of a table's rows; none for a stream that does not normalize.
pub fn lineage_columns(meta: &MetaNames, lineage: Option<&Lineage>) -> (columns: Result<
    Vec<MetaColumn>,
    MissingLineage,
>)
    ensures
        match columns {
            Ok(columns) => lineage_of(meta, parents_in(lineage)) == Ok::<
                Seq<MetaColumn>,
                MissingLineage,
            >(columns@),
            Err(fault) => lineage_of(meta, parents_in(lineage)) == Err::<
                Seq<MetaColumn>,
                MissingLineage,
            >(fault),
        },
{
    if meta.id.is_none() {
        let columns: Vec<MetaColumn> = Vec::new();
        assert(columns@ =~= Seq::empty());
        return Ok(columns);
    }
    let parent: bool = match lineage {
        None => return Err(MissingLineage::Normalized),
        Some(lineage) => lineage.parent,
    };
    let mut columns: Vec<MetaColumn> = Vec::new();
    columns.push(MetaColumn::Id);
    if meta.parent.is_some() {
        if !parent {
            return Err(MissingLineage::Child);
        }
        columns.push(MetaColumn::ParentId);
        columns.push(MetaColumn::RootId);
        columns.push(MetaColumn::Idx);
        assert(columns@ =~= seq![
            MetaColumn::Id,
            MetaColumn::ParentId,
            MetaColumn::RootId,
            MetaColumn::Idx,
        ]);
    } else {
        assert(columns@ =~= seq![MetaColumn::Id]);
    }
    Ok(columns)
}

/// What orders the rows of a merge table's batch.
#[derive(Clone, Copy, Debug, PartialEq, Eq, Structural)]
pub struct Stamp {
    /// The batch's segment.
    pub segment: u64,
    /// The position of its first row among the rows written to the segment.
    pub first_row: u64,
}

/// The positions of the kept rows among the rows received: a normalized stream's row's is its root
/// row's, so a child row follows its root's merge.
pub open spec fn row_positions(lineage: Option<&Lineage>, kept: Option<Seq<bool>>) -> Option<
    Seq<u32>,
> {
    match (lineage, kept) {
        (Some(lineage), Some(kept)) => Some(kept_items(lineage.root_row@, kept)),
        (Some(lineage), None) => Some(lineage.root_row@),
        (None, Some(kept)) => Some(kept_positions(kept)),
        (None, None) => None,
    }
}

/// The position of the batch's row `row` among the rows received.
pub open spec fn position_of(lineage: Option<&Lineage>, row: int) -> int {
    match lineage {
        Some(lineage) => lineage.root_row@[row] as int,
        None => row,
    }
}

/// Whether the sequences of `rows` rows at `positions` are counted in 64 bits.
spec fn positions_fit(stamp: Stamp, rows: int, positions: Option<Seq<u32>>) -> bool {
    forall|row: int|
        0 <= row < rows ==> stamp.first_row + #[trigger] offset_of(row, positions) <= u64::MAX
}

/// A kept item is that of a kept row.
proof fn lemma_kept_item_has_a_row<T>(items: Seq<T>, kept: Seq<bool>, i: int) -> (row: int)
    requires
        items.len() <= kept.len(),
        0 <= i < kept_items(items, kept).len(),
    ensures
        0 <= row < items.len(),
        kept[row],
        items[row] == kept_items(items, kept)[i],
    decreases items.len(),
{
    if i < kept_items(items.drop_last(), kept).len() {
        lemma_kept_item_has_a_row(items.drop_last(), kept, i)
    } else {
        items.len() - 1
    }
}

/// A kept position is that of a kept row, as far as positions go.
proof fn lemma_kept_position_has_a_row(kept: Seq<bool>, i: int) -> (row: int)
    requires
        0 <= i < kept_positions(kept).len(),
    ensures
        0 <= row < kept.len(),
        kept[row],
        kept_positions(kept)[i] <= row,
    decreases kept.len(),
{
    if i < kept_positions(kept.drop_last()).len() {
        lemma_kept_position_has_a_row(kept.drop_last(), i)
    } else {
        kept.len() - 1
    }
}

/// Where as many rows hold as there are, all do.
proof fn lemma_all_hold(rows: Seq<bool>)
    requires
        count(rows) == rows.len(),
    ensures
        forall|row: int| 0 <= row < rows.len() ==> #[trigger] rows[row],
    decreases rows.len(),
{
    if rows.len() > 0 {
        lemma_count_bound(rows.drop_last());
        lemma_all_hold(rows.drop_last());
        assert forall|row: int| 0 <= row < rows.len() implies #[trigger] rows[row] by {
            if row < rows.len() - 1 {
                assert(rows.drop_last()[row]);
            }
        }
    }
}

/// The sequences of kept rows are counted in 64 bits where those of the batch's rows are.
proof fn lemma_positions_fit(
    batch: &Batch,
    routes: Seq<Route>,
    lineage: Option<&Lineage>,
    stamp: Stamp,
)
    requires
        lineage matches Some(lineage) ==> lineage.root_row@.len() == batch.rows,
        forall|row: int|
            0 <= row < batch.rows && #[trigger] is_kept(batch, routes, row) ==> stamp.first_row
                + position_of(lineage, row) <= u64::MAX,
    ensures
        positions_fit(
            stamp,
            count(kept_mask(batch, routes)) as int,
            row_positions(lineage, kept_of(batch, routes)),
        ),
{
    let mask = kept_mask(batch, routes);
    let positions = row_positions(lineage, kept_of(batch, routes));
    assert forall|row: int| 0 <= row < count(mask) implies stamp.first_row + #[trigger] offset_of(
        row,
        positions,
    ) <= u64::MAX by {
        match (lineage, kept_of(batch, routes)) {
            (Some(lineage), Some(kept)) => {
                lemma_kept_items_len(lineage.root_row@, kept);
                assert(kept.take(lineage.root_row@.len() as int) =~= kept);
                let from = lemma_kept_item_has_a_row(lineage.root_row@, kept, row);
                assert(is_kept(batch, routes, from));
            },
            (None, Some(kept)) => {
                lemma_kept_positions_len(kept);
                let from = lemma_kept_position_has_a_row(kept, row);
                assert(is_kept(batch, routes, from));
            },
            _ => {
                lemma_all_hold(mask);
                assert(mask[row]);
                assert(is_kept(batch, routes, row));
            },
        }
    }
}

proof fn lemma_kept_items_len<T>(items: Seq<T>, kept: Seq<bool>)
    requires
        items.len() <= kept.len(),
    ensures
        kept_items(items, kept).len() == count(kept.take(items.len() as int)),
    decreases items.len(),
{
    if items.len() > 0 {
        lemma_kept_items_len(items.drop_last(), kept);
        let n = items.len() as int;
        assert(kept.take(n).drop_last() =~= kept.take(n - 1));
        assert(kept.take(n).last() == kept[n - 1]);
    }
}

proof fn lemma_kept_positions_len(kept: Seq<bool>)
    ensures
        kept_positions(kept).len() == count(kept),
    decreases kept.len(),
{
    if kept.len() > 0 {
        lemma_kept_positions_len(kept.drop_last());
    }
}

/// A batch ready for its table, and what the schema policy discarded from it.
#[derive(Debug)]
pub struct Prepared {
    /// Which of the batch's rows the schema policy kept, where it dropped some.
    pub kept: Option<Vec<bool>>,
    /// Rows dropped because they carried a discarded change.
    pub discarded_rows: u64,
    pub contents: Contents,
}

/// What a prepared batch holds.
#[derive(Debug)]
pub enum Contents {
    /// No rows.
    Empty,
    /// The rows kept.
    Rows {
        rows: usize,
        /// Values nulled because they carried a discarded change.
        discarded_values: u64,
        /// What each of the table's source columns is filled with.
        fills: Vec<Fill>,
        /// Each row's sequence, in a merge table.
        sequences: Option<Vec<Vec<u8>>>,
        /// The lineage columns, or what of them is missing.
        lineage: Result<Vec<MetaColumn>, MissingLineage>,
        /// Whether only the last row of each key stays.
        compacts: bool,
    },
}

/// Whether `sequences` are those of the kept rows.
pub open spec fn are_sequences(
    sequences: Option<Vec<Vec<u8>>>,
    view: &TableView,
    rows: int,
    stamp: Stamp,
    positions: Option<Seq<u32>>,
) -> bool {
    match sequences {
        None => view.meta.seq is None,
        Some(sequences) => {
            &&& view.meta.seq is Some
            &&& sequences@.len() == rows
            &&& forall|row: int|
                0 <= row < rows ==> (#[trigger] sequences@[row])@ == sequence_of(
                    stamp.segment,
                    (stamp.first_row + offset_of(row, positions)) as u64,
                )
        },
    }
}

impl LoweringPlan {
    /// Whether `contents` are what a batch's kept rows become.
    pub open spec fn is_contents(
        &self,
        contents: Contents,
        view: &TableView,
        incoming: Seq<LogicalType>,
        batch: &Batch,
        lineage: Option<&Lineage>,
        stamp: Stamp,
    ) -> bool {
        let left = count(kept_mask(batch, self.routes@));
        let kept = kept_of(batch, self.routes@);
        match contents {
            Contents::Empty => left == 0,
            Contents::Rows {
                rows,
                discarded_values,
                fills,
                sequences,
                lineage: columns,
                compacts,
            } => {
                &&& left > 0
                &&& rows == left
                &&& key_fault(batch, self.sources@, kept, view) is None
                &&& discarded_values == values_in(
                    batch,
                    self.discarded@,
                    kept,
                    self.discarded@.len() as int,
                )
                &&& fills@.len() == self.sources@.len()
                &&& forall|c: int|
                    0 <= c < fills@.len() ==> is_fill(
                        #[trigger] fills@[c],
                        c,
                        view,
                        incoming,
                        self.sources@,
                    )
                &&& are_sequences(sequences, view, rows as int, stamp, row_positions(lineage, kept))
                &&& match columns {
                    Ok(columns) => lineage_of(&view.meta, parents_in(lineage)) == Ok::<
                        Seq<MetaColumn>,
                        MissingLineage,
                    >(columns@),
                    Err(fault) => lineage_of(&view.meta, parents_in(lineage)) == Err::<
                        Seq<MetaColumn>,
                        MissingLineage,
                    >(fault),
                }
                &&& compacts == (view.table@.merge matches Some(merge) && merge.root is None)
            },
        }
    }

    /// Whether `prepared` is what a batch becomes as rows of `view`'s table, or why it is refused.
    pub open spec fn prepares(
        &self,
        view: &TableView,
        incoming: Seq<LogicalType>,
        batch: &Batch,
        lineage: Option<&Lineage>,
        stamp: Stamp,
        prepared: Result<Prepared, KeyFault>,
    ) -> bool {
        let left = count(kept_mask(batch, self.routes@));
        match prepared {
            Ok(prepared) => {
                &&& mask_view(prepared.kept) == kept_of(batch, self.routes@)
                &&& prepared.discarded_rows == batch.rows - left
                &&& self.is_contents(prepared.contents, view, incoming, batch, lineage, stamp)
            },
            Err(fault) => left > 0 && key_fault(
                batch,
                self.sources@,
                kept_of(batch, self.routes@),
                view,
            ) == Some(fault),
        }
    }

    /// What `batch`, whose columns are the plan's incoming ones, becomes as rows of `view`'s
    /// table; refused where a merge table's batch lacks a key column or holds a null key.
    ///
    /// Every column goes where the plan's routes send it, converted exactly and lowered to how the
    /// destination stores it, and the metadata columns follow, `lineage` last for the tables of
    /// normalized streams. A merge table's batch keeps only the last row of each key.
    pub fn prepare(
        &self,
        view: &TableView,
        incoming: &Vec<LogicalType>,
        batch: &Batch,
        lineage: Option<&Lineage>,
        stamp: Stamp,
    ) -> (prepared: Result<Prepared, KeyFault>)
        requires
            self.wf(view.model.columns@.len() as int),
            view.lowered@.len() == view.model.columns@.len(),
            forall|i: int|
                0 <= i < view.key@.len() ==> #[trigger] view.key@[i] < view.model.columns@.len(),
            batch.wf(),
            incoming@.len() == self.routes@.len() == batch.columns@.len(),
            lineage matches Some(lineage) ==> lineage.root_row@.len() == batch.rows,
            batch.columns@.len() * batch.rows <= u64::MAX,
            view.meta.seq is Some ==> forall|row: int|
                0 <= row < batch.rows && #[trigger] is_kept(batch, self.routes@, row)
                    ==> stamp.first_row + position_of(lineage, row) <= u64::MAX,
        ensures
            self.prepares(view, incoming@, batch, lineage, stamp, prepared),
    {
        let (kept, discarded_rows): (Option<Vec<bool>>, u64) = discard_rows(batch, &self.routes);
        proof {
            lemma_count_bound(kept_mask(batch, self.routes@));
            assert(self.routes.len() == self.routes@.len());
            lemma_discarded_are_columns(self.routes@, self.routes@.len() as int);
            assert forall|c: int| 0 <= c < self.sources@.len() implies (
            #[trigger] self.sources@[c] matches Source::Incoming(at) ==> at
                < batch.columns@.len()) by {
                lemma_source_is_a_column(self.routes@, c, self.routes@.len() as int);
            }
        }
        let rows: usize = batch.rows - discarded_rows as usize;
        if rows == 0 {
            return Ok(Prepared { kept, discarded_rows, contents: Contents::Empty });
        }
        let discarded_values: u64 = self.count_discarded(batch, &kept);
        match check_key(view, batch, &self.sources, &kept) {
            Err(fault) => return Err(fault),
            Ok(_) => {},
        }
        let fills: Vec<Fill> = fills(view, incoming, &self.sources);
        let sequences: Option<Vec<Vec<u8>>> = if view.meta.seq.is_some() {
            proof {
                lemma_positions_fit(batch, self.routes@, lineage, stamp);
            }
            Some(sequences_of(lineage, &kept, rows, stamp))
        } else {
            None
        };
        let columns: Result<Vec<MetaColumn>, MissingLineage> = lineage_columns(&view.meta, lineage);
        let compacts: bool = view.compacts();
        Ok(
            Prepared {
                kept,
                discarded_rows,
                contents: Contents::Rows {
                    rows,
                    discarded_values,
                    fills,
                    sequences,
                    lineage: columns,
                    compacts,
                },
            },
        )
    }

    /// How many values the schema policy discards from the kept rows.
    fn count_discarded(&self, batch: &Batch, kept: &Option<Vec<bool>>) -> (total: u64)
        requires
            batch.wf(),
            kept matches Some(kept) ==> kept@.len() == batch.rows,
            self.discarded@.len() <= batch.columns@.len(),
            forall|i: int|
                0 <= i < self.discarded@.len() ==> #[trigger] self.discarded@[i]
                    < batch.columns@.len(),
            batch.columns@.len() * batch.rows <= u64::MAX,
        ensures
            total == values_in(
                batch,
                self.discarded@,
                mask_view(*kept),
                self.discarded@.len() as int,
            ),
    {
        let mut total: u64 = 0;
        let mut at: usize = 0;
        while at < self.discarded.len()
            invariant
                at <= self.discarded@.len() <= batch.columns@.len(),
                batch.wf(),
                kept matches Some(kept) ==> kept@.len() == batch.rows,
                forall|i: int|
                    0 <= i < self.discarded@.len() ==> #[trigger] self.discarded@[i]
                        < batch.columns@.len(),
                batch.columns@.len() * batch.rows <= u64::MAX,
                total == values_in(batch, self.discarded@, mask_view(*kept), at as int),
                total <= at * batch.rows,
            decreases self.discarded@.len() - at,
        {
            let column: usize = self.discarded[at];
            assert(self.discarded@[at as int] < batch.columns@.len());
            let values: usize = count_values(batch, column, kept);
            proof {
                let (n, r, all) = (at as int, batch.rows as int, batch.columns@.len() as int);
                assert(n * r + r == (n + 1) * r) by (nonlinear_arith);
                assert((n + 1) * r <= all * r) by (nonlinear_arith)
                    requires
                        n + 1 <= all,
                        0 <= r,
                ;
            }
            total = total + values as u64;
            at = at + 1;
        }
        total
    }
}

/// The sequences of the kept rows of a merge table.
fn sequences_of(lineage: Option<&Lineage>, kept: &Option<Vec<bool>>, rows: usize, stamp: Stamp) -> (
sequences: Vec<Vec<u8>>)
    requires
        match (lineage, *kept) {
            (Some(lineage), Some(kept)) => lineage.root_row@.len() == kept@.len() && rows == count(
                kept@,
            ),
            (Some(lineage), None) => lineage.root_row@.len() == rows,
            (None, Some(kept)) => rows == count(kept@),
            (None, None) => true,
        },
        positions_fit(stamp, rows as int, row_positions(lineage, mask_view(*kept))),
    ensures
        sequences@.len() == rows,
        forall|row: int|
            0 <= row < rows ==> (#[trigger] sequences@[row])@ == sequence_of(
                stamp.segment,
                (stamp.first_row + offset_of(
                    row,
                    row_positions(lineage, mask_view(*kept)),
                )) as u64,
            ),
{
    match (lineage, kept) {
        (Some(lineage), Some(kept)) => {
            let positions: Vec<u32> = kept_rows(&lineage.root_row, kept);
            proof {
                lemma_kept_items_len(lineage.root_row@, kept@);
                assert(kept@.take(lineage.root_row@.len() as int) =~= kept@);
            }
            sequence(stamp.segment, stamp.first_row, rows, Some(&positions))
        },
        (Some(lineage), None) => sequence(
            stamp.segment,
            stamp.first_row,
            rows,
            Some(&lineage.root_row),
        ),
        (None, Some(kept)) => {
            let positions: Vec<u32> = positions(kept);
            proof {
                lemma_kept_positions_len(kept@);
            }
            sequence(stamp.segment, stamp.first_row, rows, Some(&positions))
        },
        (None, None) => sequence(stamp.segment, stamp.first_row, rows, None),
    }
}

/// The load start in microseconds since 1970: as many as an `i64` holds, and none for a load that
/// started before. `since` is what went by since then, in microseconds.
pub fn load_micros(since: Option<u128>) -> (micros: i64)
    ensures
        micros == match since {
            None => 0,
            Some(since) => if since <= i64::MAX {
                since as int
            } else {
                i64::MAX as int
            },
        },
{
    match since {
        None => 0,
        Some(since) => if since <= 9_223_372_036_854_775_807 {
            since as i64
        } else {
            i64::MAX
        },
    }
}

/// The load that metadata columns of one value per load were built for, and for how many rows.
#[derive(Clone, Copy, Debug, PartialEq, Eq, Structural)]
pub struct Constants {
    /// The load's id.
    pub load_id: u128,
    /// When the load started, in nanoseconds since 1970.
    pub loaded_at: i128,
    pub rows: usize,
}

impl Constants {
    /// Whether the built columns serve a batch of `rows` rows of a load: they are of that load,
    /// hold as many rows, and not more than twice as many.
    pub fn serve(&self, load_id: u128, loaded_at: i128, rows: usize) -> (serve: bool)
        ensures
            serve == (self.load_id == load_id && self.loaded_at == loaded_at && rows <= self.rows
                && self.rows <= 2 * rows),
    {
        self.load_id == load_id && self.loaded_at == loaded_at && rows <= self.rows && self.rows
            - rows <= rows
    }
}

/// The error for a value a column cannot hold, `error` being why.
pub fn unrepresentable(stream: &str, column: &str, error: &str) -> (unrepresentable: Error)
    ensures
        unrepresentable.kind == ErrorKind::Schema,
        unrepresentable.code matches Some(code) && code@ == "value_unrepresentable"@,
        unrepresentable.message@ == "stream "@ + stream@ + ": column "@ + column@
            + " cannot hold a value of the batch: "@ + error@,
{
    let mut text = String::new();
    text.append("stream ");
    text.append(stream);
    text.append(": column ");
    text.append(column);
    text.append(" cannot hold a value of the batch: ");
    text.append(error);
    assert(text@ =~= "stream "@ + stream@ + ": column "@ + column@
        + " cannot hold a value of the batch: "@ + error@);
    Error { kind: ErrorKind::Schema, code: Some("value_unrepresentable"), message: text }
}

} // verus!
