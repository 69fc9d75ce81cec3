//! The lowering plans kept for a table: one per incoming schema its partitions send, for its
//! current view.

use crate::search::{first_where, is_pick, lemma_first_is, lemma_first_is_none, lemma_pick_next};
use crate::table::model::{texts, ColumnPath};
use crate::table::types::{field_views, same_fields, Field, FieldView};
use crate::table::view::path_views;
use vstd::prelude::*;
use vstd::string::*;

verus! {

/// A batch's columns as they arrive: their types, and each column's path within its table.
#[derive(Debug)]
pub struct Incoming {
    pub fields: Vec<Field>,
    /// Each column's path, in the fields' order.
    pub paths: Vec<ColumnPath>,
}

impl Incoming {
    /// The columns as mathematical values.
    pub open spec fn view(&self) -> (Seq<FieldView>, Seq<Seq<Seq<char>>>) {
        (field_views(self.fields@), path_views(self.paths@))
    }

    /// A batch whose columns are top-level ones named as its fields are.
    pub fn top_level(fields: Vec<Field>) -> (incoming: Incoming)
        ensures
            incoming.fields == fields,
            path_views(incoming.paths@) == Seq::new(
                fields@.len(),
                |i: int| seq![fields@[i].name@],
            ),
    {
        let mut paths: Vec<ColumnPath> = Vec::new();
        let mut at: usize = 0;
        while at < fields.len()
            invariant
                at <= fields@.len(),
                paths@.len() == at,
                forall|i: int| 0 <= i < at ==> (#[trigger] paths@[i])@ == seq![fields@[i].name@],
            decreases fields@.len() - at,
        {
            let mut segments: Vec<String> = Vec::new();
            segments.push(fields[at].name.clone());
            assert(texts(segments@) =~= seq![fields@[at as int].name@]);
            paths.push(ColumnPath { segments });
            at = at + 1;
        }
        assert(path_views(paths@) =~= Seq::new(fields@.len(), |i: int| seq![fields@[i].name@]));
        Incoming { fields, paths }
    }

    /// Whether two batches' columns are the same.
    pub fn same(&self, other: &Incoming) -> (same: bool)
        ensures
            same == (self@ == other@),
    {
        if self.paths.len() != other.paths.len() {
            assert(self@.1.len() != other@.1.len());
            return false;
        }
        let mut at: usize = 0;
        while at < self.paths.len()
            invariant
                at <= self.paths@.len() == other.paths@.len(),
                forall|i: int| 0 <= i < at ==> (#[trigger] self.paths@[i])@ == other.paths@[i]@,
            decreases self.paths@.len() - at,
        {
            if !self.paths[at].same(&other.paths[at]) {
                assert(self@.1[at as int] != other@.1[at as int]);
                return false;
            }
            at = at + 1;
        }
        assert(self@.1 =~= other@.1);
        same_fields(&self.fields, &other.fields)
    }
}

/// A plan, the view it lowers into and the columns it lowers.
#[derive(Debug)]
pub struct Planned<P> {
    /// Which of the table's views, in the order they came.
    pub view: u64,
    pub incoming: Incoming,
    pub plan: P,
}

/// Plans kept per table.
pub const PLANS: usize = 8;

/// The plans kept for a table, the newest last.
#[derive(Debug)]
pub struct Plans<P> {
    entries: Vec<Planned<P>>,
}

/// Picks the plans for `incoming` into the view `view`.
pub open spec fn is_for<P>(
    view: u64,
    incoming: (Seq<FieldView>, Seq<Seq<Seq<char>>>),
) -> spec_fn(Planned<P>) -> bool {
    |entry: Planned<P>| entry.view == view && entry.incoming@ == incoming
}

/// Those of `entries` that lower into the view `view`.
pub open spec fn of_view<P>(entries: Seq<Planned<P>>, view: u64) -> Seq<Planned<P>>
    decreases entries.len(),
{
    if entries.len() == 0 {
        entries
    } else {
        let front = of_view(entries.drop_last(), view);
        if entries.last().view == view {
            front.push(entries.last())
        } else {
            front
        }
    }
}

/// Those of `entries` that lower into the view `view`, the oldest left out where they are as many
/// as are kept, and `entry` last.
pub open spec fn with_plan<P>(entries: Seq<Planned<P>>, entry: Planned<P>) -> Seq<Planned<P>> {
    let current = of_view(entries, entry.view);
    (if current.len() == PLANS {
        current.skip(1)
    } else {
        current
    }).push(entry)
}

proof fn lemma_of_view<P>(entries: Seq<Planned<P>>, view: u64)
    ensures
        of_view(entries, view).len() <= entries.len(),
        forall|i: int|
            0 <= i < of_view(entries, view).len() ==> (#[trigger] of_view(entries, view)[i]).view
                == view,
    decreases entries.len(),
{
    if entries.len() > 0 {
        lemma_of_view(entries.drop_last(), view);
    }
}

/// Dropping an entry of another view leaves those of the view.
proof fn lemma_of_view_remove<P>(entries: Seq<Planned<P>>, view: u64, at: int)
    requires
        0 <= at < entries.len(),
        entries[at].view != view,
    ensures
        of_view(entries.remove(at), view) == of_view(entries, view),
    decreases entries.len(),
{
    if at == entries.len() - 1 {
        assert(entries.remove(at) =~= entries.drop_last());
    } else {
        lemma_of_view_remove(entries.drop_last(), view, at);
        assert(entries.remove(at).drop_last() =~= entries.drop_last().remove(at));
        assert(entries.remove(at).last() == entries.last());
    }
}

/// Entries that are all of the view are left as they are.
proof fn lemma_of_view_all<P>(entries: Seq<Planned<P>>, view: u64)
    requires
        forall|i: int| 0 <= i < entries.len() ==> (#[trigger] entries[i]).view == view,
    ensures
        of_view(entries, view) == entries,
    decreases entries.len(),
{
    if entries.len() > 0 {
        let front = entries.drop_last();
        assert forall|i: int| 0 <= i < front.len() implies (#[trigger] front[i]).view == view by {
            assert(front[i] == entries[i]);
        }
        lemma_of_view_all(front, view);
        assert(entries[entries.len() - 1].view == view);
        assert(front.push(entries.last()) =~= entries);
    }
}

impl<P> Plans<P> {
    /// The plans kept, the newest last.
    pub closed spec fn view(&self) -> Seq<Planned<P>> {
        self.entries@
    }

    /// Whether no more plans are kept than are wanted.
    pub open spec fn wf(&self) -> bool {
        self@.len() <= PLANS
    }

    /// No plans.
    pub fn new() -> (plans: Plans<P>)
        ensures
            plans@ == Seq::<Planned<P>>::empty(),
            plans.wf(),
    {
        Plans { entries: Vec::new() }
    }

    /// The plan made for `incoming` into the view `view`, if one is kept.
    pub fn find(&self, view: u64, incoming: &Incoming) -> (plan: Option<&P>)
        ensures
            match (plan, first_where(self@, is_for(view, incoming@))) {
                (Some(plan), Some(at)) => *plan == self@[at].plan,
                (None, None) => true,
                _ => false,
            },
    {
        let ghost wanted = is_for::<P>(view, incoming@);
        let mut at: usize = 0;
        while at < self.entries.len()
            invariant
                at <= self.entries@.len(),
                wanted == is_for::<P>(view, incoming@),
                forall|i: int| 0 <= i < at ==> !wanted(#[trigger] self.entries@[i]),
            decreases self.entries@.len() - at,
        {
            if self.entries[at].view == view && self.entries[at].incoming.same(incoming) {
                proof {
                    lemma_first_is(self@, wanted, at as int);
                }
                return Some(&self.entries[at].plan);
            }
            at = at + 1;
        }
        proof {
            lemma_first_is_none(self@, wanted);
        }
        None
    }

    /// Keeps `plan`, made for `incoming` into the view `view`, the table's current one: plans of
    /// earlier views go, and so does the oldest where there are too many.
    pub fn keep(&mut self, view: u64, incoming: Incoming, plan: P)
        requires
            old(self).wf(),
        ensures
            final(self)@ == with_plan(old(self)@, (Planned { view, incoming, plan })),
            final(self).wf(),
    {
        let ghost start = self.entries@;
        let mut at: usize = 0;
        proof {
            lemma_of_view(start, view);
        }
        while at < self.entries.len()
            invariant
                at <= self.entries@.len() <= PLANS,
                of_view(self.entries@, view) == of_view(start, view),
                forall|i: int| 0 <= i < at ==> (#[trigger] self.entries@[i]).view == view,
            decreases self.entries@.len() - at,
        {
            if self.entries[at].view == view {
                at = at + 1;
            } else {
                proof {
                    lemma_of_view_remove(self.entries@, view, at as int);
                }
                let ghost before = self.entries@;
                let dropped: Planned<P> = self.entries.remove(at);
                assert(self.entries@ =~= before.remove(at as int));
            }
        }
        proof {
            lemma_of_view_all(self.entries@, view);
        }
        let ghost current = self.entries@;
        if self.entries.len() == PLANS {
            let oldest: Planned<P> = self.entries.remove(0);
            assert(self.entries@ =~= current.skip(1));
        }
        self.entries.push(Planned { view, incoming, plan });
    }
}

/// The plan kept last is found for its view and columns, unless an older one already was.
pub proof fn law_kept_plans_are_found<P>(entries: Seq<Planned<P>>, entry: Planned<P>)
    ensures
        first_where(with_plan(entries, entry), is_for(entry.view, entry.incoming@)) matches Some(at)
            && {
            &&& with_plan(entries, entry)[at].view == entry.view
            &&& with_plan(entries, entry)[at].incoming@ == entry.incoming@
        },
{
    let all = with_plan(entries, entry);
    let wanted = is_for::<P>(entry.view, entry.incoming@);
    crate::search::lemma_first_where(all, wanted);
    assert(all[all.len() - 1] == entry);
    assert(wanted(all[all.len() - 1]));
}

/// Picks the plans into the view `view`.
pub open spec fn is_into<P>(entries: Seq<Planned<P>>, view: u64) -> spec_fn(int) -> bool {
    |i: int| entries[i].view == view
}

/// A plan that is kept comes last, behind the plans into its view, in their order; of those the
/// oldest goes where there are as many as are kept. No plan into another view stays.
pub proof fn law_plans_of_other_views_go<P>(entries: Seq<Planned<P>>, entry: Planned<P>) -> (at: Seq<
    int,
>)
    ensures
        is_pick(at, entries.len() as int, is_into(entries, entry.view)),
        with_plan(entries, entry).last() == entry,
        at.len() != PLANS ==> with_plan(entries, entry).len() == at.len() + 1,
        at.len() != PLANS ==> forall|k: int|
            0 <= k < at.len() ==> #[trigger] with_plan(entries, entry)[k] == entries[at[k]],
        at.len() == PLANS ==> with_plan(entries, entry).len() == PLANS,
        at.len() == PLANS ==> forall|k: int|
            0 <= k < PLANS - 1 ==> #[trigger] with_plan(entries, entry)[k] == entries[at[k + 1]],
{
    lemma_into(entries, entry.view)
}

proof fn lemma_into<P>(entries: Seq<Planned<P>>, view: u64) -> (at: Seq<int>)
    ensures
        is_pick(at, entries.len() as int, is_into(entries, view)),
        of_view(entries, view).len() == at.len(),
        forall|k: int|
            0 <= k < at.len() ==> #[trigger] of_view(entries, view)[k] == entries[at[k]],
    decreases entries.len(),
{
    if entries.len() == 0 {
        Seq::empty()
    } else {
        let front = entries.drop_last();
        let n = front.len() as int;
        let before = lemma_into(front, view);
        let earlier = of_view(front, view);
        assert(is_pick(before, n, is_into(entries, view))) by {
            assert forall|k: int| 0 <= k < before.len() implies 0 <= #[trigger] before[k] < n && (
            is_into(entries, view))(before[k]) by {
                assert((is_into(front, view))(before[k]));
            }
            assert forall|i: int| 0 <= i < n && #[trigger] (is_into(entries, view))(
                i,
            ) implies before.contains(i) by {
                assert((is_into(front, view))(i));
            }
        }
        let at = lemma_pick_next(before, n, is_into(entries, view));
        assert forall|k: int| 0 <= k < at.len() implies #[trigger] of_view(entries, view)[k]
            == entries[at[k]] by {
            if k < before.len() {
                assert(of_view(entries, view)[k] == earlier[k]);
                assert((is_into(front, view))(before[k]));
            }
        }
        at
    }
}

} // verus!
