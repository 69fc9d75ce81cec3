//! The tables of one attempt: the schema changes partitions make to them, and what the next commit
//! records about them.

use crate::error::{Error, ErrorKind};
use crate::search::{is_pick, lemma_pick_next};
use crate::table::model::texts;
use crate::table::resolve::{change_views, Change, ChangeView};
use crate::table::types::{
    clone_fields, field_views, lemma_field_views, Field, FieldView, LogicalType, TypeView,
};
use crate::table::view::{RefView, TableRef, TableView};
use vstd::prelude::*;
use vstd::string::*;

verus! {

/// A change to a table in the destination.
#[derive(Debug)]
pub enum TableChange {
    /// The whole table.
    Create { table: TableRef, schema: Vec<Field> },
    AddColumn { table: TableRef, field: Field },
    /// The column named `column` becomes stored as another type.
    Widen { table: TableRef, column: String, from: LogicalType, to: LogicalType },
}

/// A change to a table as a mathematical value.
pub ghost enum TableChangeView {
    Create { table: RefView, schema: Seq<FieldView> },
    AddColumn { table: RefView, field: FieldView },
    Widen { table: RefView, column: Seq<char>, from: TypeView, to: TypeView },
}

impl TableChange {
    /// The change as a mathematical value.
    pub open spec fn view(&self) -> TableChangeView {
        match *self {
            TableChange::Create { table, schema } => TableChangeView::Create {
                table: table@,
                schema: field_views(schema@),
            },
            TableChange::AddColumn { table, field } => TableChangeView::AddColumn {
                table: table@,
                field: field@,
            },
            TableChange::Widen { table, column, from, to } => TableChangeView::Widen {
                table: table@,
                column: column@,
                from: from@,
                to: to@,
            },
        }
    }
}

/// Changes as mathematical values.
pub open spec fn table_change_views(changes: Seq<TableChange>) -> Seq<TableChangeView> {
    Seq::new(changes.len(), |i: int| changes[i]@)
}

/// What one change to a table's model changes in the destination: a column it adds, or a widening
/// that changes how a column is stored.
pub open spec fn destination_change(
    before: &TableView,
    after: &TableView,
    change: ChangeView,
) -> Option<TableChangeView> {
    match change {
        ChangeView::Add { key } => match after.model@.column(key) {
            Some(column) => Some(
                TableChangeView::AddColumn {
                    table: after.table@,
                    field: field_views(after.physical@)[column],
                },
            ),
            None => None,
        },
        ChangeView::Widen { column, .. } => {
            let from = before.lowered@[column]@;
            let to = after.lowered@[column]@;
            if from != to {
                Some(
                    TableChangeView::Widen {
                        table: after.table@,
                        column: after.model@.columns[column].name,
                        from,
                        to,
                    },
                )
            } else {
                None
            }
        },
    }
}

/// What the first `n` of `changes` change in the destination, in their order.
pub open spec fn destination_changes(
    before: &TableView,
    after: &TableView,
    changes: Seq<ChangeView>,
    n: int,
) -> Seq<TableChangeView>
    decreases n,
{
    if n <= 0 {
        Seq::empty()
    } else {
        let earlier = destination_changes(before, after, changes, n - 1);
        match destination_change(before, after, changes[n - 1]) {
            Some(change) => earlier.push(change),
            None => earlier,
        }
    }
}

/// The destination changes that take `before` to `after`.
pub open spec fn changes_between(
    before: &TableView,
    after: &TableView,
    changes: Seq<ChangeView>,
) -> Seq<TableChangeView> {
    if before.model@.created() {
        destination_changes(before, after, changes, changes.len() as int)
    } else {
        seq![
            TableChangeView::Create {
                table: after.table@,
                schema: field_views(after.physical@),
            },
        ]
    }
}

/// Whether every widening is of a column both views have.
pub open spec fn widens_known_columns(
    before: &TableView,
    after: &TableView,
    changes: Seq<Change>,
) -> bool {
    forall|i: int|
        0 <= i < changes.len() ==> (#[trigger] changes[i] matches Change::Widen { column, .. }
            ==> column < before.lowered@.len() && column < after.lowered@.len() && column
            < after.model.columns@.len())
}

/// The destination changes that take `before` to `after`: the whole table for its first version,
/// then each added column and each widening that changes how the destination stores a column.
pub fn table_changes(before: &TableView, after: &TableView, changes: &Vec<Change>) -> (made: Vec<
    TableChange,
>)
    requires
        widens_known_columns(before, after, changes@),
        after.model.columns@.len() <= after.physical@.len(),
    ensures
        table_change_views(made@) == changes_between(before, after, change_views(changes@)),
{
    let mut made: Vec<TableChange> = Vec::new();
    if !before.model.created() {
        made.push(
            TableChange::Create {
                table: after.table.clone(),
                schema: clone_fields(&after.physical),
            },
        );
        assert(table_change_views(made@) =~= changes_between(
            before,
            after,
            change_views(changes@),
        ));
        return made;
    }
    let ghost views = change_views(changes@);
    proof {
        lemma_field_views(after.physical@);
        lemma_field_views(after.model.columns@);
    }
    let mut at: usize = 0;
    assert(table_change_views(made@) =~= destination_changes(before, after, views, 0));
    while at < changes.len()
        invariant
            at <= changes@.len(),
            views == change_views(changes@),
            widens_known_columns(before, after, changes@),
            after.model.columns@.len() <= after.physical@.len(),
            field_views(after.physical@).len() == after.physical@.len(),
            field_views(after.model.columns@).len() == after.model.columns@.len(),
            forall|i: int|
                0 <= i < after.physical@.len() ==> #[trigger] field_views(after.physical@)[i]
                    == after.physical@[i]@,
            forall|i: int|
                0 <= i < after.model.columns@.len() ==> #[trigger] field_views(
                    after.model.columns@,
                )[i] == after.model.columns@[i]@,
            table_change_views(made@) == destination_changes(before, after, views, at as int),
        decreases changes@.len() - at,
    {
        let ghost earlier = made@;
        assert(views[at as int] == changes@[at as int]@);
        match &changes[at] {
            Change::Add { key } => {
                if let Some(column) = after.model.column(key) {
                    assert(field_views(after.physical@)[column as int]
                        == after.physical@[column as int]@);
                    let change = TableChange::AddColumn {
                        table: after.table.clone(),
                        field: after.physical[column].clone(),
                    };
                    made.push(change);
                    assert(table_change_views(made@) =~= table_change_views(earlier).push(change@));
                }
            },
            Change::Widen { column, .. } => {
                let column: usize = *column;
                assert(changes@[at as int] matches Change::Widen { column: c, .. } && c == column);
                let from: &LogicalType = &before.lowered[column];
                let to: &LogicalType = &after.lowered[column];
                if !from.same(to) {
                    assert(field_views(after.model.columns@)[column as int]
                        == after.model.columns@[column as int]@);
                    let change = TableChange::Widen {
                        table: after.table.clone(),
                        column: after.model.columns[column].name.clone(),
                        from: from.clone(),
                        to: to.clone(),
                    };
                    made.push(change);
                    assert(table_change_views(made@) =~= table_change_views(earlier).push(change@));
                }
            },
        }
        at = at + 1;
    }
    made
}

/// How many times a table's change is named around columns that attempts which never committed
/// left behind before the conflict fails the run.
pub const CONFLICT_RETRIES: u64 = 1;

/// Where the fitting of a batch to its table stands.
#[derive(Clone, Copy, Debug, PartialEq, Eq, Structural)]
pub enum Fitting {
    /// The batch is resolved against the table's view, without the table's lock.
    Looking,
    /// The table's lock is waited for, so that changes to it never race.
    Locking,
    /// The batch is resolved again, under the lock, against the latest view.
    LookingAgain,
    /// The changes of the last resolution are applied; they were named around a conflict `retries`
    /// times.
    Applying { retries: u64 },
    /// The batch is resolved with identifiers hashed with `salt`, around a conflict.
    Renaming { salt: u64 },
    /// The batch fits the view as it is.
    Fits,
    /// The batch fits the view its changes made.
    Evolved,
    /// The destination refused the changes, or the last of the conflicts.
    Refused,
    /// The batch was refused by its resolution.
    Unresolved,
}

/// What happens while a batch is fitted.
#[derive(Clone, Copy, Debug, PartialEq, Eq, Structural)]
pub enum FitEvent {
    /// The resolution leaves the table's version as it is, or not.
    Resolved { unchanged: bool },
    /// The resolution is refused.
    NotResolved,
    /// The table's lock is held.
    Locked,
    /// The destination applied the changes.
    Applied,
    /// The destination found columns that an attempt which never committed left behind.
    Conflict,
    /// The destination refused the changes otherwise.
    Rejected,
}

/// Where the fitting stands after an event; an event that does not belong there changes nothing.
pub open spec fn fitting_after(fitting: Fitting, event: FitEvent) -> Fitting {
    match (fitting, event) {
        (Fitting::Looking, FitEvent::Resolved { unchanged }) => if unchanged {
            Fitting::Fits
        } else {
            Fitting::Locking
        },
        (Fitting::Locking, FitEvent::Locked) => Fitting::LookingAgain,
        (Fitting::LookingAgain, FitEvent::Resolved { unchanged }) => if unchanged {
            Fitting::Fits
        } else {
            Fitting::Applying { retries: 0 }
        },
        (Fitting::Renaming { salt }, FitEvent::Resolved { .. }) => Fitting::Applying {
            retries: (salt + 1) as u64,
        },
        (
            Fitting::Looking | Fitting::LookingAgain | Fitting::Renaming { .. },
            FitEvent::NotResolved,
        ) => Fitting::Unresolved,
        (Fitting::Applying { .. }, FitEvent::Applied) => Fitting::Evolved,
        (Fitting::Applying { .. }, FitEvent::Rejected) => Fitting::Refused,
        (Fitting::Applying { retries }, FitEvent::Conflict) => if retries >= CONFLICT_RETRIES {
            Fitting::Refused
        } else {
            Fitting::Renaming { salt: retries }
        },
        (other, _) => other,
    }
}

/// Whether the fitting is one a batch can come to.
pub open spec fn is_reachable(fitting: Fitting) -> bool {
    match fitting {
        Fitting::Applying { retries } => retries <= CONFLICT_RETRIES,
        Fitting::Renaming { salt } => salt < CONFLICT_RETRIES,
        _ => true,
    }
}

impl Fitting {
    /// Where the fitting stands after `event`.
    ///
    /// Batches that fit need no lock. A change is worked out again under the table's lock against
    /// the latest view, since another partition may have changed the table meanwhile.
    pub fn after(self, event: FitEvent) -> (next: Fitting)
        requires
            is_reachable(self),
        ensures
            next == fitting_after(self, event),
            is_reachable(next),
    {
        match (self, event) {
            (Fitting::Looking, FitEvent::Resolved { unchanged }) => if unchanged {
                Fitting::Fits
            } else {
                Fitting::Locking
            },
            (Fitting::Locking, FitEvent::Locked) => Fitting::LookingAgain,
            (Fitting::LookingAgain, FitEvent::Resolved { unchanged }) => if unchanged {
                Fitting::Fits
            } else {
                Fitting::Applying { retries: 0 }
            },
            (Fitting::Renaming { salt }, FitEvent::Resolved { .. }) => Fitting::Applying {
                retries: salt + 1,
            },
            (Fitting::Looking, FitEvent::NotResolved) => Fitting::Unresolved,
            (Fitting::LookingAgain, FitEvent::NotResolved) => Fitting::Unresolved,
            (Fitting::Renaming { .. }, FitEvent::NotResolved) => Fitting::Unresolved,
            (Fitting::Applying { .. }, FitEvent::Applied) => Fitting::Evolved,
            (Fitting::Applying { .. }, FitEvent::Rejected) => Fitting::Refused,
            (Fitting::Applying { retries }, FitEvent::Conflict) => if retries >= CONFLICT_RETRIES {
                Fitting::Refused
            } else {
                Fitting::Renaming { salt: retries }
            },
            (other, _) => other,
        }
    }

    /// Whether the fitting is over.
    pub fn is_over(&self) -> (over: bool)
        ensures
            over == is_over(*self),
    {
        match self {
            Fitting::Fits => true,
            Fitting::Evolved => true,
            Fitting::Refused => true,
            Fitting::Unresolved => true,
            _ => false,
        }
    }
}

/// Whether a fitting is over.
pub open spec fn is_over(fitting: Fitting) -> bool {
    fitting == Fitting::Fits || fitting == Fitting::Evolved || fitting == Fitting::Refused
        || fitting == Fitting::Unresolved
}

/// Where the fitting stands after the first `n` of `events`.
pub open spec fn fitting_through(events: Seq<FitEvent>, n: int) -> Fitting
    decreases n,
{
    if n <= 0 {
        Fitting::Looking
    } else {
        fitting_after(fitting_through(events, n - 1), events[n - 1])
    }
}

/// How many times changes were applied, or tried to be, by the first `n` of `events`.
pub open spec fn attempts(events: Seq<FitEvent>, n: int) -> nat
    decreases n,
{
    if n <= 0 {
        0
    } else {
        let before = fitting_through(events, n - 1);
        attempts(events, n - 1) + (if before is Applying && fitting_through(events, n) != before {
            1nat
        } else {
            0nat
        })
    }
}

/// How many attempts a fitting has behind it.
spec fn attempts_behind(fitting: Fitting) -> int {
    match fitting {
        Fitting::Applying { retries } => retries as int,
        Fitting::Renaming { salt } => salt + 1,
        _ => 0,
    }
}

/// A batch's changes are tried against the destination as often as conflicts are retried and once
/// more, at most, and none is tried before the table's lock is held.
pub proof fn law_conflicts_are_retried_so_often(events: Seq<FitEvent>, n: int)
    requires
        0 <= n <= events.len(),
    ensures
        is_reachable(fitting_through(events, n)),
        attempts(events, n) <= CONFLICT_RETRIES + 1,
        attempts(events, n) > 0 ==> exists|i: int|
            0 <= i < n && #[trigger] events[i] == FitEvent::Locked,
{
    lemma_attempts(events, n);
}

proof fn lemma_attempts(events: Seq<FitEvent>, n: int)
    requires
        0 <= n <= events.len(),
    ensures
        is_reachable(fitting_through(events, n)),
        attempts(events, n) <= CONFLICT_RETRIES + 1,
        !is_over(fitting_through(events, n)) ==> attempts(events, n) == attempts_behind(
            fitting_through(events, n),
        ),
        (attempts(events, n) > 0 || fitting_through(events, n) is Applying || fitting_through(
            events,
            n,
        ) is Renaming || fitting_through(events, n) is LookingAgain) ==> exists|i: int|
            0 <= i < n && #[trigger] events[i] == FitEvent::Locked,
    decreases n,
{
    if n > 0 {
        lemma_attempts(events, n - 1);
        assert(fitting_through(events, n) is LookingAgain && !(fitting_through(events, n - 1)
            is LookingAgain) ==> events[n - 1] == FitEvent::Locked);
    }
}

/// What a destination's refusal means for the fitting, by its code: a schema conflict comes from
/// columns that an attempt which never committed left behind.
pub fn refusal_event(code: Option<&'static str>) -> (event: FitEvent)
    ensures
        event == if code matches Some(code) && code@ == "schema_conflict"@ {
            FitEvent::Conflict
        } else {
            FitEvent::Rejected
        },
{
    match code {
        Some(code) => if code.to_string() == "schema_conflict".to_string() {
            FitEvent::Conflict
        } else {
            FitEvent::Rejected
        },
        None => FitEvent::Rejected,
    }
}

/// The error for the destination refusing a change to the table of `stream`, with the code it
/// refused with, `detail` being why.
pub fn refused(stream: &str, detail: &str, code: Option<&'static str>) -> (error: Error)
    ensures
        error.kind == ErrorKind::Destination,
        error.code == code,
        error.message@ == "changing the table of stream "@ + stream@ + ": "@ + detail@,
{
    let mut text = String::new();
    text.append("changing the table of stream ");
    text.append(stream);
    text.append(": ");
    text.append(detail);
    assert(text@ =~= "changing the table of stream "@ + stream@ + ": "@ + detail@);
    Error { kind: ErrorKind::Destination, code, message: text }
}

/// Whether `name` is what a table is called, its committed identifier or a free one, and `after`
/// are the identifiers taken once it is, `before` those taken till then.
pub open spec fn is_named(
    committed: Option<Seq<char>>,
    free: Seq<char>,
    before: Seq<Seq<char>>,
    after: Seq<Seq<char>>,
    name: Seq<char>,
) -> bool {
    &&& name == match committed {
        Some(committed) => committed,
        None => free,
    }
    &&& after == if before.contains(name) {
        before
    } else {
        before.push(name)
    }
}

/// Takes the identifier `name`, if it is not taken.
fn take(taken: &mut Vec<String>, name: &String)
    ensures
        texts(final(taken)@) == if texts(old(taken)@).contains(name@) {
            texts(old(taken)@)
        } else {
            texts(old(taken)@).push(name@)
        },
{
    let ghost before = texts(taken@);
    let mut at: usize = 0;
    while at < taken.len()
        invariant
            at <= taken@.len(),
            before == texts(taken@),
            before == texts(old(taken)@),
            forall|i: int| 0 <= i < at ==> #[trigger] before[i] != name@,
        decreases taken@.len() - at,
    {
        if taken[at] == *name {
            assert(before[at as int] == name@);
            return;
        }
        at = at + 1;
    }
    taken.push(name.clone());
    assert(texts(taken@) =~= before.push(name@));
}

/// The identifier of a table, which is then taken: the `committed` one, or `free`.
pub fn table_name(committed: Option<&String>, free: String, taken: &mut Vec<String>) -> (name:
    String)
    ensures
        is_named(
            match committed {
                Some(committed) => Some(committed@),
                None => None,
            },
            free@,
            texts(old(taken)@),
            texts(final(taken)@),
            name@,
        ),
{
    let name: String = match committed {
        Some(committed) => committed.clone(),
        None => free,
    };
    take(taken, &name);
    name
}

/// The identifiers among the first `n`, each once.
pub open spec fn identifiers(committed: Seq<Option<String>>, n: int) -> Seq<Seq<char>>
    decreases n,
{
    if n <= 0 {
        Seq::empty()
    } else {
        let before = identifiers(committed, n - 1);
        match committed[n - 1] {
            Some(name) => if before.contains(name@) {
                before
            } else {
                before.push(name@)
            },
            None => before,
        }
    }
}

/// The identifiers that are taken when an attempt begins: those of `committed` tables that have
/// one.
pub fn taken_names(committed: &Vec<Option<String>>) -> (taken: Vec<String>)
    ensures
        texts(taken@) == identifiers(committed@, committed@.len() as int),
{
    let mut taken: Vec<String> = Vec::new();
    assert(texts(taken@) =~= Seq::<Seq<char>>::empty());
    let mut at: usize = 0;
    while at < committed.len()
        invariant
            at <= committed@.len(),
            texts(taken@) == identifiers(committed@, at as int),
        decreases committed@.len() - at,
    {
        if let Some(name) = &committed[at] {
            take(&mut taken, name);
        }
        at = at + 1;
    }
    taken
}

/// Tables are named apart: once a table has its name, another one that has none committed, and is
/// called by an identifier that was not taken, is called otherwise. Every identifier taken stays
/// taken, and is held once where none was held twice.
pub proof fn law_tables_are_named_apart(
    committed: Option<Seq<char>>,
    free: Seq<char>,
    before: Seq<Seq<char>>,
    between: Seq<Seq<char>>,
    name: Seq<char>,
    other_free: Seq<char>,
    after: Seq<Seq<char>>,
    other: Seq<char>,
)
    requires
        is_named(committed, free, before, between, name),
        is_named(None, other_free, between, after, other),
        !between.contains(other_free),
    ensures
        other != name,
        between.contains(name),
        after.contains(name) && after.contains(other),
        forall|taken: Seq<char>| before.contains(taken) ==> #[trigger] after.contains(taken),
        before.no_duplicates() ==> after.no_duplicates(),
{
    if before.contains(name) {
    } else {
        assert(between[before.len() as int] == name);
    }
    assert(after[between.len() as int] == other);
    assert forall|taken: Seq<char>| before.contains(taken) implies #[trigger] after.contains(
        taken,
    ) by {
        let i = choose|i: int| 0 <= i < before.len() && before[i] == taken;
        assert(between[i] == taken && after[i] == taken);
    }
    let i = choose|i: int| 0 <= i < between.len() && between[i] == name;
    assert(after[i] == name);
}

/// Every committed identifier is taken when an attempt begins, and held once, so no table without
/// one comes to be called by it.
pub proof fn law_committed_names_are_taken(committed: Seq<Option<String>>, n: int)
    requires
        0 <= n <= committed.len(),
    ensures
        forall|i: int|
            0 <= i < n ==> (#[trigger] committed[i] matches Some(name) ==> identifiers(
                committed,
                n,
            ).contains(name@)),
        identifiers(committed, n).no_duplicates(),
    decreases n,
{
    if n > 0 {
        law_committed_names_are_taken(committed, n - 1);
        let before = identifiers(committed, n - 1);
        let all = identifiers(committed, n);
        assert forall|i: int| 0 <= i < n implies (#[trigger] committed[i] matches Some(name)
            ==> all.contains(name@)) by {
            if let Some(name) = committed[i] {
                if i < n - 1 || before.contains(name@) {
                    let at = choose|at: int| 0 <= at < before.len() && before[at] == name@;
                    assert(all[at] == name@);
                } else {
                    assert(all[before.len() as int] == name@);
                }
            }
        }
    }
}

/// The changes that add the lineage column of a stream's table created before the stream
/// normalized: its row id, where it has one. A table that already has it changes nothing, as a
/// generation created with it does.
pub open spec fn lineage_changes(view: &TableView, n: int) -> Seq<TableChangeView>
    decreases n,
{
    let first = view.model.columns@.len();
    if n <= first {
        Seq::empty()
    } else {
        let earlier = lineage_changes(view, n - 1);
        let field = field_views(view.physical@)[n - 1];
        if view.meta.id matches Some(id) && field.name == id@ {
            earlier.push(TableChangeView::AddColumn { table: view.table@, field })
        } else {
            earlier
        }
    }
}

/// The changes that add the lineage column of a stream's table created before the stream
/// normalized.
pub fn add_lineage(view: &TableView) -> (changes: Vec<TableChange>)
    requires
        view.model.columns@.len() <= view.physical@.len(),
    ensures
        table_change_views(changes@) == if view.model@.created() {
            lineage_changes(view, view.physical@.len() as int)
        } else {
            Seq::empty()
        },
{
    let mut changes: Vec<TableChange> = Vec::new();
    assert(table_change_views(changes@) =~= Seq::empty());
    if !view.model.created() {
        return changes;
    }
    proof {
        lemma_field_views(view.physical@);
    }
    let mut at: usize = view.model.columns.len();
    assert(table_change_views(changes@) =~= lineage_changes(view, at as int));
    while at < view.physical.len()
        invariant
            view.model.columns@.len() <= at <= view.physical@.len(),
            forall|i: int|
                0 <= i < view.physical@.len() ==> #[trigger] field_views(view.physical@)[i]
                    == view.physical@[i]@,
            table_change_views(changes@) == lineage_changes(view, at as int),
        decreases view.physical@.len() - at,
    {
        let ghost earlier = changes@;
        assert(field_views(view.physical@)[at as int] == view.physical@[at as int]@);
        let wanted: bool = match &view.meta.id {
            Some(id) => view.physical[at].name == *id,
            None => false,
        };
        if wanted {
            let change = TableChange::AddColumn {
                table: view.table.clone(),
                field: view.physical[at].clone(),
            };
            changes.push(change);
            assert(table_change_views(changes@) =~= table_change_views(earlier).push(change@));
        }
        at = at + 1;
    }
    changes
}

/// The change that creates a table's generation, a replace stream's hidden copy, with the table's
/// columns; none for a table that is not created, or that has no generation.
pub fn create_generation(view: &TableView) -> (change: Option<TableChange>)
    ensures
        match change {
            Some(change) => view.model@.created() && view.table.generation is Some && change@ == (
            TableChangeView::Create { table: view.table@, schema: field_views(view.physical@) }),
            None => !view.model@.created() || view.table.generation is None,
        },
{
    if !view.model.created() || view.table.generation.is_none() {
        return None;
    }
    Some(
        TableChange::Create { table: view.table.clone(), schema: clone_fields(&view.physical) },
    )
}

/// The version of a table's schema, and the one state records.
#[derive(Clone, Copy, Debug, PartialEq, Eq, Structural)]
pub struct Versions {
    pub current: u32,
    pub recorded: u32,
}

impl Versions {
    /// The versions once a batch's fitting stands at `fitting`, `next` being the version its
    /// changes make: a change that the destination did not apply changes nothing.
    pub fn fitted(self, fitting: Fitting, next: u32) -> (versions: Versions)
        ensures
            versions.recorded == self.recorded,
            versions.current == if fitting == Fitting::Evolved {
                next
            } else {
                self.current
            },
    {
        if fitting == Fitting::Evolved {
            Versions { current: next, recorded: self.recorded }
        } else {
            self
        }
    }
}

/// The tables among the first `n` whose schema is newer than state records, with its version.
pub open spec fn unrecorded(tables: Seq<Versions>, n: int) -> Seq<(usize, u32)>
    decreases n,
{
    if n <= 0 {
        Seq::empty()
    } else {
        let before = unrecorded(tables, n - 1);
        let table = tables[n - 1];
        if table.current > table.recorded {
            before.push(((n - 1) as usize, table.current))
        } else {
            before
        }
    }
}

/// Every table changed since state last recorded it, with its version.
pub fn delta(tables: &Vec<Versions>) -> (changed: Vec<(usize, u32)>)
    ensures
        changed@ == unrecorded(tables@, tables@.len() as int),
{
    let mut changed: Vec<(usize, u32)> = Vec::new();
    let mut at: usize = 0;
    assert(changed@ =~= unrecorded(tables@, 0));
    while at < tables.len()
        invariant
            at <= tables@.len(),
            changed@ == unrecorded(tables@, at as int),
        decreases tables@.len() - at,
    {
        let table: Versions = tables[at];
        if table.current > table.recorded {
            changed.push((at, table.current));
        }
        at = at + 1;
    }
    changed
}

/// The tables once state records the first `n` of `versions`: each at the newer of the two it is
/// recorded at.
pub open spec fn recorded_in(tables: Seq<Versions>, versions: Seq<(usize, u32)>, n: int) -> Seq<
    Versions,
>
    decreases n,
{
    if n <= 0 {
        tables
    } else {
        let before = recorded_in(tables, versions, n - 1);
        let (table, version) = versions[n - 1];
        let old = before[table as int];
        before.update(
            table as int,
            Versions {
                current: old.current,
                recorded: if old.recorded < version {
                    version
                } else {
                    old.recorded
                },
            },
        )
    }
}

/// Notes that state now records `versions`.
pub fn recorded(tables: &mut Vec<Versions>, versions: &Vec<(usize, u32)>)
    requires
        forall|i: int|
            0 <= i < versions@.len() ==> (#[trigger] versions@[i]).0 < old(tables)@.len(),
    ensures
        final(tables)@ == recorded_in(old(tables)@, versions@, versions@.len() as int),
        final(tables)@.len() == old(tables)@.len(),
{
    let ghost start = tables@;
    let mut at: usize = 0;
    while at < versions.len()
        invariant
            at <= versions@.len(),
            tables@.len() == start.len(),
            tables@ == recorded_in(start, versions@, at as int),
            forall|i: int| 0 <= i < versions@.len() ==> (#[trigger] versions@[i]).0 < start.len(),
        decreases versions@.len() - at,
    {
        let (table, version): (usize, u32) = versions[at];
        assert(versions@[at as int].0 < start.len());
        let old: Versions = tables[table];
        let newer: u32 = if old.recorded < version {
            version
        } else {
            old.recorded
        };
        tables.set(table, Versions { current: old.current, recorded: newer });
        at = at + 1;
    }
}

proof fn lemma_unrecorded_are_tables(tables: Seq<Versions>, n: int)
    requires
        0 <= n <= tables.len() <= usize::MAX,
    ensures
        forall|i: int|
            0 <= i < unrecorded(tables, n).len() ==> {
                let (table, version) = #[trigger] unrecorded(tables, n)[i];
                table < n && version == tables[table as int].current
            },
        forall|t: int|
            0 <= t < n && (#[trigger] tables[t]).current > tables[t].recorded ==> unrecorded(
                tables,
                n,
            ).contains((t as usize, tables[t].current)),
    decreases n,
{
    if n > 0 {
        lemma_unrecorded_are_tables(tables, n - 1);
        let before = unrecorded(tables, n - 1);
        let all = unrecorded(tables, n);
        assert forall|i: int| 0 <= i < all.len() implies {
            let (table, version) = #[trigger] all[i];
            table < n && version == tables[table as int].current
        } by {
            if i < before.len() {
                assert(all[i] == before[i]);
            }
        }
        assert forall|t: int|
            0 <= t < n && (#[trigger] tables[t]).current > tables[t].recorded implies all.contains(
            (t as usize, tables[t].current),
        ) by {
            if t < n - 1 {
                let i = choose|i: int|
                    0 <= i < before.len() && before[i] == (t as usize, tables[t].current);
                assert(all[i] == before[i]);
            } else {
                assert(all[before.len() as int] == (t as usize, tables[t].current));
            }
        }
    }
}

/// Recording versions keeps what the tables are at, and each is recorded at what it was or at a
/// version that was recorded of it.
proof fn lemma_recorded_in(tables: Seq<Versions>, versions: Seq<(usize, u32)>, n: int)
    requires
        0 <= n <= versions.len(),
        forall|i: int| 0 <= i < versions.len() ==> (#[trigger] versions[i]).0 < tables.len(),
    ensures
        recorded_in(tables, versions, n).len() == tables.len(),
        forall|t: int|
            0 <= t < tables.len() ==> (#[trigger] recorded_in(tables, versions, n)[t]).current
                == tables[t].current && recorded_in(tables, versions, n)[t].recorded
                >= tables[t].recorded,
        forall|i: int|
            0 <= i < n ==> recorded_in(tables, versions, n)[(#[trigger] versions[i]).0 as int].recorded
                >= versions[i].1,
    decreases n,
{
    if n > 0 {
        lemma_recorded_in(tables, versions, n - 1);
        assert(versions[n - 1].0 < tables.len());
        let before = recorded_in(tables, versions, n - 1);
        assert forall|i: int| 0 <= i < n implies recorded_in(tables, versions, n)[(
        #[trigger] versions[i]).0 as int].recorded >= versions[i].1 by {
            if i < n - 1 {
                assert(before[versions[i].0 as int].recorded >= versions[i].1);
            }
        }
    }
}

/// Once state records what a delta holds, the delta is empty until a table changes.
pub proof fn law_a_recorded_delta_is_empty(tables: Seq<Versions>)
    requires
        tables.len() <= usize::MAX,
    ensures
        ({
            let changed = unrecorded(tables, tables.len() as int);
            let after = recorded_in(tables, changed, changed.len() as int);
            unrecorded(after, after.len() as int) == Seq::<(usize, u32)>::empty()
        }),
{
    let changed = unrecorded(tables, tables.len() as int);
    let after = recorded_in(tables, changed, changed.len() as int);
    lemma_unrecorded_are_tables(tables, tables.len() as int);
    assert forall|i: int| 0 <= i < changed.len() implies (#[trigger] changed[i]).0
        < tables.len() by {}
    lemma_recorded_in(tables, changed, changed.len() as int);
    assert forall|t: int| 0 <= t < after.len() implies (#[trigger] after[t]).current
        <= after[t].recorded by {
        if tables[t].current > tables[t].recorded {
            assert(changed.contains((t as usize, tables[t].current)));
            let i = choose|i: int|
                0 <= i < changed.len() && changed[i] == (t as usize, tables[t].current);
            assert(after[changed[i].0 as int].recorded >= changed[i].1);
        }
    }
    lemma_none_unrecorded(after, after.len() as int);
}

proof fn lemma_none_unrecorded(tables: Seq<Versions>, n: int)
    requires
        0 <= n <= tables.len(),
        forall|t: int| 0 <= t < tables.len() ==> (#[trigger] tables[t]).current <= tables[t].recorded,
    ensures
        unrecorded(tables, n) == Seq::<(usize, u32)>::empty(),
    decreases n,
{
    if n > 0 {
        lemma_none_unrecorded(tables, n - 1);
        assert(tables[n - 1].current <= tables[n - 1].recorded);
    }
}

/// Picks the tables whose schema is newer than state records.
pub open spec fn is_newer(tables: Seq<Versions>) -> spec_fn(int) -> bool {
    |i: int| tables[i].current > tables[i].recorded
}

/// A delta holds every table whose schema is newer than state records, once, in their order, at the
/// version it has, and no other.
pub proof fn law_a_delta_holds_what_is_newer(tables: Seq<Versions>, n: int) -> (at: Seq<int>)
    requires
        0 <= n <= tables.len() <= usize::MAX,
    ensures
        is_pick(at, n, is_newer(tables)),
        unrecorded(tables, n).len() == at.len(),
        forall|k: int|
            0 <= k < at.len() ==> {
                let (table, version) = #[trigger] unrecorded(tables, n)[k];
                table == at[k] && version == tables[at[k]].current
            },
    decreases n,
{
    if n <= 0 {
        Seq::empty()
    } else {
        let before = law_a_delta_holds_what_is_newer(tables, n - 1);
        let earlier = unrecorded(tables, n - 1);
        let at = lemma_pick_next(before, n - 1, is_newer(tables));
        assert forall|k: int| 0 <= k < at.len() implies {
            let (table, version) = #[trigger] unrecorded(tables, n)[k];
            table == at[k] && version == tables[at[k]].current
        } by {
            if k < before.len() {
                assert(unrecorded(tables, n)[k] == earlier[k]);
            }
        }
        at
    }
}

/// Whether `version` is the newest that `versions` record of the table `t`, `old` where they record
/// none that is newer.
pub open spec fn is_newest(versions: Seq<(usize, u32)>, t: int, old: u32, version: u32) -> bool {
    &&& version >= old
    &&& forall|i: int|
        0 <= i < versions.len() && (#[trigger] versions[i]).0 == t ==> versions[i].1 <= version
    &&& version == old || exists|i: int|
        0 <= i < versions.len() && (#[trigger] versions[i]).0 == t && versions[i].1 == version
}

/// What state records only grows: a table is recorded at the newest of its versions that was noted,
/// in whatever order they were, and its schema stays as it is.
pub proof fn law_records_only_grow(tables: Seq<Versions>, versions: Seq<(usize, u32)>, n: int)
    requires
        0 <= n <= versions.len(),
        forall|i: int| 0 <= i < versions.len() ==> (#[trigger] versions[i]).0 < tables.len(),
    ensures
        recorded_in(tables, versions, n).len() == tables.len(),
        forall|t: int|
            0 <= t < tables.len() ==> (#[trigger] recorded_in(tables, versions, n)[t]).current
                == tables[t].current && is_newest(
                versions.take(n),
                t,
                tables[t].recorded,
                recorded_in(tables, versions, n)[t].recorded,
            ),
    decreases n,
{
    if n > 0 {
        law_records_only_grow(tables, versions, n - 1);
        let before = recorded_in(tables, versions, n - 1);
        let after = recorded_in(tables, versions, n);
        let noted = versions.take(n);
        let earlier = versions.take(n - 1);
        assert(versions[n - 1].0 < tables.len());
        assert forall|t: int| 0 <= t < tables.len() implies (#[trigger] after[t]).current
            == tables[t].current && is_newest(
            noted,
            t,
            tables[t].recorded,
            after[t].recorded,
        ) by {
            assert(before[t].current == tables[t].current);
            assert forall|i: int| 0 <= i < noted.len() && (#[trigger] noted[i]).0 == t implies
                noted[i].1 <= after[t].recorded by {
                if i < n - 1 {
                    assert(noted[i] == earlier[i]);
                }
            }
            if after[t].recorded != tables[t].recorded {
                if after[t].recorded == before[t].recorded {
                    let i = choose|i: int|
                        0 <= i < earlier.len() && (#[trigger] earlier[i]).0 == t && earlier[i].1
                            == before[t].recorded;
                    assert(noted[i] == earlier[i]);
                } else {
                    assert(noted[n - 1].0 == t && noted[n - 1].1 == after[t].recorded);
                }
            }
        }
    }
}

/// Picks the changes that a destination is told of: the columns it gets, and the widenings that it
/// stores otherwise than before.
pub open spec fn is_told(
    before: &TableView,
    after: &TableView,
    changes: Seq<ChangeView>,
) -> spec_fn(int) -> bool {
    |i: int|
        match changes[i] {
            ChangeView::Add { key } => after.model@.column(key) is Some,
            ChangeView::Widen { column, .. } => before.lowered@[column]@
                != after.lowered@[column]@,
        }
}

/// A destination that has the table is told of every column it gets, as it will store it, and of
/// every column it will store otherwise, from what and to what, in the order of the changes, and of
/// nothing else. One that has not is told of the table alone, with all its columns.
pub proof fn law_destinations_are_told_what_they_store(
    before: &TableView,
    after: &TableView,
    changes: Seq<ChangeView>,
) -> (at: Seq<int>)
    ensures
        is_pick(at, changes.len() as int, is_told(before, after, changes)),
        before.model@.version > 0 ==> changes_between(before, after, changes).len() == at.len(),
        before.model@.version > 0 ==> forall|k: int|
            0 <= k < at.len() ==> match #[trigger] changes_between(before, after, changes)[k] {
                TableChangeView::Create { .. } => false,
                TableChangeView::AddColumn { table, field } => {
                    &&& table == after.table@
                    &&& changes[at[k]] matches ChangeView::Add { key } && after.model@.column(key)
                        matches Some(column) && field == field_views(after.physical@)[column]
                },
                TableChangeView::Widen { table, column, from, to } => {
                    &&& table == after.table@
                    &&& changes[at[k]] matches ChangeView::Widen { column: of, .. } && column
                        == after.model@.columns[of].name && from == before.lowered@[of]@ && to
                        == after.lowered@[of]@
                },
            },
        before.model@.version == 0 ==> changes_between(before, after, changes) == seq![
            TableChangeView::Create { table: after.table@, schema: field_views(after.physical@) },
        ],
{
    lemma_told(before, after, changes, changes.len() as int)
}

proof fn lemma_told(
    before: &TableView,
    after: &TableView,
    changes: Seq<ChangeView>,
    n: int,
) -> (at: Seq<int>)
    requires
        0 <= n <= changes.len(),
    ensures
        is_pick(at, n, is_told(before, after, changes)),
        destination_changes(before, after, changes, n).len() == at.len(),
        forall|k: int|
            0 <= k < at.len() ==> destination_change(before, after, changes[at[k]]) == Some(
                #[trigger] destination_changes(before, after, changes, n)[k],
            ),
    decreases n,
{
    if n <= 0 {
        Seq::empty()
    } else {
        let earlier = lemma_told(before, after, changes, n - 1);
        let told = destination_changes(before, after, changes, n - 1);
        let at = lemma_pick_next(earlier, n - 1, is_told(before, after, changes));
        assert((is_told(before, after, changes))(n - 1) == destination_change(
            before,
            after,
            changes[n - 1],
        ) is Some);
        assert forall|k: int| 0 <= k < at.len() implies destination_change(
            before,
            after,
            changes[at[k]],
        ) == Some(#[trigger] destination_changes(before, after, changes, n)[k]) by {
            if k < earlier.len() {
                assert(destination_changes(before, after, changes, n)[k] == told[k]);
            }
        }
        at
    }
}

/// A fitting ends by one event each: it fits where the resolution changes nothing, is done where
/// the destination applied the changes, is refused where it rejects them or conflicts once more than
/// is retried, and fails where nothing can be resolved. Changes are tried only as they were resolved
/// under the lock, and again only as they were resolved under other names.
pub proof fn law_fittings_end_as_they_went(fitting: Fitting, event: FitEvent)
    requires
        is_reachable(fitting),
        !is_over(fitting),
    ensures
        ({
            let next = fitting_after(fitting, event);
            &&& next == Fitting::Fits <==> event == (FitEvent::Resolved { unchanged: true }) && (
            fitting is Looking || fitting is LookingAgain)
            &&& next == Fitting::Evolved <==> event == FitEvent::Applied && fitting is Applying
            &&& next == Fitting::Refused <==> fitting is Applying && (event == FitEvent::Rejected
                || event == FitEvent::Conflict && fitting->retries >= CONFLICT_RETRIES)
            &&& next == Fitting::Unresolved <==> event == FitEvent::NotResolved && (
            fitting is Looking || fitting is LookingAgain || fitting is Renaming)
            &&& next is Applying && next != fitting <==> event is Resolved && (fitting is Renaming
                || fitting is LookingAgain && !event->unchanged)
            &&& next is Renaming && next != fitting <==> event == FitEvent::Conflict
                && fitting is Applying && fitting->retries < CONFLICT_RETRIES
            &&& next is Locking && next != fitting <==> fitting is Looking && event == (
            FitEvent::Resolved { unchanged: false })
            &&& next is LookingAgain && next != fitting <==> fitting is Locking && event
                == FitEvent::Locked
        }),
{
}

/// Picks the columns behind the model's that are named as the row id.
pub open spec fn is_row_id(view: &TableView) -> spec_fn(int) -> bool {
    |i: int|
        i >= view.model.columns@.len() && view.meta.id is Some && field_views(view.physical@)[i].name
            == view.meta.id->0@
}

/// The lineage that is added to a table is its row id alone, as the destination stores it, and
/// nothing where its rows have none.
pub proof fn law_the_lineage_added_is_the_row_id(view: &TableView, n: int) -> (at: Seq<int>)
    requires
        0 <= n,
    ensures
        is_pick(at, n, is_row_id(view)),
        lineage_changes(view, n).len() == at.len(),
        forall|k: int|
            0 <= k < at.len() ==> #[trigger] lineage_changes(view, n)[k] == (
            TableChangeView::AddColumn {
                table: view.table@,
                field: field_views(view.physical@)[at[k]],
            }),
    decreases n,
{
    if n <= 0 {
        Seq::empty()
    } else {
        let before = law_the_lineage_added_is_the_row_id(view, n - 1);
        let earlier = lineage_changes(view, n - 1);
        let at = lemma_pick_next(before, n - 1, is_row_id(view));
        if n <= view.model.columns@.len() {
            assert(before.len() == 0) by {
                if before.len() > 0 {
                    assert((is_row_id(view))(before[0]));
                }
            }
        }
        assert forall|k: int| 0 <= k < at.len() implies #[trigger] lineage_changes(view, n)[k] == (
        TableChangeView::AddColumn {
            table: view.table@,
            field: field_views(view.physical@)[at[k]],
        }) by {
            if k < before.len() {
                assert(lineage_changes(view, n)[k] == earlier[k]);
            }
        }
        at
    }
}

} // verus!
