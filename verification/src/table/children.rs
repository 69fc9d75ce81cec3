//! The child tables of normalized streams: admitted by the stream's policy, and listed for the
//! commits of merge streams.

use crate::search::{is_pick, lemma_pick_next};
use crate::table::model::{clone_texts, texts};
use crate::table::resolve::SchemaPolicy;
use crate::table::view::{root_view, RootKey, TableRef, TableView};
use vstd::prelude::*;
use vstd::string::*;

verus! {

/// What becomes of rows for a child table that may be new.
#[derive(Clone, Copy, Debug, PartialEq, Eq, Structural)]
pub enum Admission {
    /// The table is added, or exists, and takes them.
    Add,
    /// The stream's schema is frozen: the rows fail the stream.
    Refuse,
    /// The stream discards values that would change its schema: the rows are dropped, and counted
    /// as discarded values.
    Discard,
    /// The stream discards rows that would change its schema: the rows are dropped with the parent
    /// rows holding them, and those parents' other descendants.
    DiscardParents,
}

/// What becomes of rows for a child table: those of one that was `added`, that state `recorded`,
/// or that comes while its stream's table is being created, are taken; those of a new one once the
/// table `existed` are as the stream's policy for the array's column says.
pub open spec fn admission_of(
    added: bool,
    existed: bool,
    recorded: bool,
    policy: Option<SchemaPolicy>,
) -> Admission {
    if added || !existed || recorded {
        Admission::Add
    } else {
        match policy {
            Some(SchemaPolicy::Freeze) => Admission::Refuse,
            Some(SchemaPolicy::DiscardValue) => Admission::Discard,
            Some(SchemaPolicy::DiscardRow) => Admission::DiscardParents,
            _ => Admission::Add,
        }
    }
}

/// What becomes of rows for the child table at a path below its stream's table, which may be new.
/// `added` and `recorded` say whether this attempt or state has it, `existed` whether the unit
/// found the stream's table created, and `policy` is that of the array's column, where the path is
/// one of a column.
pub fn admit_child(
    added: bool,
    existed: bool,
    recorded: bool,
    policy: Option<SchemaPolicy>,
) -> (admission: Admission)
    ensures
        admission == admission_of(added, existed, recorded, policy),
{
    if added || !existed || recorded {
        return Admission::Add;
    }
    match policy {
        Some(SchemaPolicy::Freeze) => Admission::Refuse,
        Some(SchemaPolicy::DiscardValue) => Admission::Discard,
        Some(SchemaPolicy::DiscardRow) => Admission::DiscardParents,
        Some(SchemaPolicy::Evolve) => Admission::Add,
        None => Admission::Add,
    }
}

/// The path of the child table at `path` below the table at `base`.
pub fn child_path(base: &Vec<String>, path: &Vec<String>) -> (child: Vec<String>)
    ensures
        texts(child@) == texts(base@) + texts(path@),
{
    let mut child: Vec<String> = clone_texts(base);
    let mut at: usize = 0;
    assert(texts(child@) =~= texts(base@) + texts(path@.take(0)));
    while at < path.len()
        invariant
            at <= path@.len(),
            texts(child@) == texts(base@) + texts(path@.take(at as int)),
        decreases path@.len() - at,
    {
        let ghost before = child@;
        child.push(path[at].clone());
        assert(texts(child@) =~= texts(before).push(path@[at as int]@));
        at = at + 1;
        assert(texts(path@.take(at as int)) =~= texts(path@.take(at - 1)).push(
            path@[at - 1]@,
        ));
        assert(texts(child@) =~= texts(base@) + texts(path@.take(at as int)));
    }
    assert(path@.take(at as int) =~= path@);
    child
}

/// Whether `path` is below `base`: it begins with it, and goes on.
pub open spec fn is_below(path: Seq<Seq<char>>, base: Seq<Seq<char>>) -> bool {
    path.len() > base.len() && path.take(base.len() as int) == base
}

/// The parts below `base` of the first `n` of `paths` that are below it, in their order.
pub open spec fn paths_below(paths: Seq<Seq<Seq<char>>>, base: Seq<Seq<char>>, n: int) -> Seq<
    Seq<Seq<char>>,
>
    decreases n,
{
    if n <= 0 {
        Seq::empty()
    } else {
        let before = paths_below(paths, base, n - 1);
        if is_below(paths[n - 1], base) {
            before.push(paths[n - 1].skip(base.len() as int))
        } else {
            before
        }
    }
}

/// Lists of names as mathematical values.
pub open spec fn path_texts(paths: Seq<Vec<String>>) -> Seq<Seq<Seq<char>>> {
    Seq::new(paths.len(), |i: int| texts(paths[i]@))
}

/// The part of `path` below `base`, where it is below it.
fn below(path: &Vec<String>, base: &Vec<String>) -> (rest: Option<Vec<String>>)
    ensures
        match rest {
            Some(rest) => is_below(texts(path@), texts(base@)) && texts(rest@) == texts(
                path@,
            ).skip(base@.len() as int),
            None => !is_below(texts(path@), texts(base@)),
        },
{
    if path.len() <= base.len() {
        return None;
    }
    let mut at: usize = 0;
    while at < base.len()
        invariant
            at <= base@.len() < path@.len(),
            forall|i: int| 0 <= i < at ==> (#[trigger] base@[i])@ == path@[i]@,
        decreases base@.len() - at,
    {
        if path[at] != base[at] {
            assert(texts(path@).take(base@.len() as int)[at as int] != texts(base@)[at as int]);
            return None;
        }
        at = at + 1;
    }
    assert(texts(path@).take(base@.len() as int) =~= texts(base@));
    let mut rest: Vec<String> = Vec::new();
    let mut next: usize = base.len();
    while next < path.len()
        invariant
            base@.len() <= next <= path@.len(),
            rest@.len() == next - base@.len(),
            forall|i: int|
                0 <= i < rest@.len() ==> (#[trigger] rest@[i])@ == path@[i + base@.len()]@,
        decreases path@.len() - next,
    {
        rest.push(path[next].clone());
        next = next + 1;
    }
    assert(texts(rest@) =~= texts(path@).skip(base@.len() as int));
    Some(rest)
}

/// The paths below `base` of the child tables among those state records, at `committed`.
pub fn recorded_children(base: &Vec<String>, committed: &Vec<Vec<String>>) -> (children: Vec<
    Vec<String>,
>)
    ensures
        path_texts(children@) == paths_below(
            path_texts(committed@),
            texts(base@),
            committed@.len() as int,
        ),
{
    let ghost all = path_texts(committed@);
    let mut children: Vec<Vec<String>> = Vec::new();
    let mut at: usize = 0;
    assert(path_texts(children@) =~= paths_below(all, texts(base@), 0));
    while at < committed.len()
        invariant
            at <= committed@.len(),
            all == path_texts(committed@),
            path_texts(children@) == paths_below(all, texts(base@), at as int),
        decreases committed@.len() - at,
    {
        let ghost before = children@;
        assert(all[at as int] == texts(committed@[at as int]@));
        if let Some(rest) = below(&committed[at], base) {
            children.push(rest);
            assert(path_texts(children@) =~= path_texts(before).push(texts(rest@)));
        }
        at = at + 1;
    }
    children
}

/// The path of a child table is below its root's, and reads back from it.
pub proof fn law_child_paths_are_below_their_root(base: Seq<Seq<char>>, path: Seq<Seq<char>>)
    requires
        path.len() > 0,
    ensures
        is_below(base + path, base),
        (base + path).skip(base.len() as int) == path,
{
    assert((base + path).take(base.len() as int) =~= base);
    assert((base + path).skip(base.len() as int) =~= path);
}

/// What a child table of a stream's table follows: the table itself, where it merges and its rows
/// have ids.
pub fn root_key(root: &TableView) -> (key: Option<RootKey>)
    ensures
        root_view(key) == match (root.table.merge, root.meta.id) {
            (Some(merge), Some(id)) => Some((root.table.name@, id@, merge.seq@)),
            _ => None,
        },
{
    match (&root.table.merge, &root.meta.id) {
        (Some(merge), Some(id)) => Some(
            RootKey {
                table: root.table.name.clone(),
                id: id.clone(),
                seq: merge.seq.clone(),
            },
        ),
        _ => None,
    }
}

/// Whether a table is a child table of a merge stream, which follows its root.
pub fn follows_root(table: &TableRef) -> (follows: bool)
    ensures
        follows == (table@.merge matches Some(merge) && merge.root is Some),
{
    match &table.merge {
        Some(merge) => merge.root.is_some(),
        None => false,
    }
}

/// The first `n` of `tables` that follow a root, by their positions.
pub open spec fn followers(tables: Seq<TableRef>, n: int) -> Seq<usize>
    decreases n,
{
    if n <= 0 {
        Seq::empty()
    } else {
        let before = followers(tables, n - 1);
        if tables[n - 1]@.merge matches Some(merge) && merge.root is Some {
            before.push((n - 1) as usize)
        } else {
            before
        }
    }
}

/// Every child table of a merge stream, as commits list them: each follows its root.
pub fn child_tables(tables: &Vec<TableRef>) -> (children: Vec<usize>)
    ensures
        children@ == followers(tables@, tables@.len() as int),
{
    let mut children: Vec<usize> = Vec::new();
    let mut at: usize = 0;
    assert(children@ =~= followers(tables@, 0));
    while at < tables.len()
        invariant
            at <= tables@.len(),
            children@ == followers(tables@, at as int),
        decreases tables@.len() - at,
    {
        if follows_root(&tables[at]) {
            children.push(at);
        }
        at = at + 1;
    }
    children
}

/// Those of the first `n` child tables, by their roots, that are below `root`.
pub open spec fn children_of(children: Seq<(usize, usize)>, root: usize, n: int) -> Seq<usize>
    decreases n,
{
    if n <= 0 {
        Seq::empty()
    } else {
        let before = children_of(children, root, n - 1);
        if children[n - 1].0 == root {
            before.push(children[n - 1].1)
        } else {
            before
        }
    }
}

/// The stream's table `root` and every child table added below it; `children` are the roots and
/// tables of all of them.
pub fn family(root: usize, children: &Vec<(usize, usize)>) -> (tables: Vec<usize>)
    ensures
        tables@ == seq![root] + children_of(children@, root, children@.len() as int),
{
    let mut tables: Vec<usize> = Vec::new();
    tables.push(root);
    let mut at: usize = 0;
    assert(tables@ =~= seq![root] + children_of(children@, root, 0));
    while at < children.len()
        invariant
            at <= children@.len(),
            tables@ == seq![root] + children_of(children@, root, at as int),
        decreases children@.len() - at,
    {
        let (parent, table): (usize, usize) = children[at];
        if parent == root {
            tables.push(table);
        }
        at = at + 1;
        assert(tables@ =~= seq![root] + children_of(children@, root, at as int));
    }
    tables
}

/// Rows for a child table are taken where the table is not new, or its stream's table is, and else
/// as the stream's policy says of the array's column: only a frozen schema refuses them, and only
/// one that discards drops them, alone or with their parents.
pub proof fn law_new_child_tables_follow_the_policy(
    added: bool,
    existed: bool,
    recorded: bool,
    policy: Option<SchemaPolicy>,
)
    ensures
        ({
            let admission = admission_of(added, existed, recorded, policy);
            let new = existed && !added && !recorded;
            &&& admission == Admission::Refuse <==> new && policy == Some(SchemaPolicy::Freeze)
            &&& admission == Admission::Discard <==> new && policy == Some(
                SchemaPolicy::DiscardValue,
            )
            &&& admission == Admission::DiscardParents <==> new && policy == Some(
                SchemaPolicy::DiscardRow,
            )
            &&& admission == Admission::Add <==> !new || policy is None || policy == Some(
                SchemaPolicy::Evolve,
            )
        }),
{
}

/// Picks the paths that `base` begins, and that go on.
pub open spec fn goes_on(paths: Seq<Seq<Seq<char>>>, base: Seq<Seq<char>>) -> spec_fn(int) -> bool {
    |i: int|
        paths[i].len() > base.len() && forall|k: int|
            0 <= k < base.len() ==> #[trigger] paths[i][k] == base[k]
}

/// The recorded child tables of a stream's table are all whose path goes on from its own, in their
/// order, by what follows it.
pub proof fn law_recorded_children_are_all_below(
    paths: Seq<Seq<Seq<char>>>,
    base: Seq<Seq<char>>,
    n: int,
) -> (at: Seq<int>)
    requires
        0 <= n <= paths.len(),
    ensures
        is_pick(at, n, goes_on(paths, base)),
        paths_below(paths, base, n).len() == at.len(),
        forall|k: int|
            0 <= k < at.len() ==> base + #[trigger] paths_below(paths, base, n)[k] == paths[at[k]],
    decreases n,
{
    if n <= 0 {
        Seq::empty()
    } else {
        let before = law_recorded_children_are_all_below(paths, base, n - 1);
        let earlier = paths_below(paths, base, n - 1);
        let at = lemma_pick_next(before, n - 1, goes_on(paths, base));
        let path = paths[n - 1];
        if is_below(path, base) {
            assert forall|k: int| 0 <= k < base.len() implies #[trigger] path[k] == base[k] by {
                assert(path.take(base.len() as int)[k] == path[k]);
            }
            assert(base + path.skip(base.len() as int) =~= path);
        } else if (goes_on(paths, base))(n - 1) {
            assert(path.take(base.len() as int) =~= base);
        }
        assert forall|k: int| 0 <= k < at.len() implies base + #[trigger] paths_below(
            paths,
            base,
            n,
        )[k] == paths[at[k]] by {
            if k < before.len() {
                assert(paths_below(paths, base, n)[k] == earlier[k]);
            }
        }
        at
    }
}

/// Picks the tables that merge and have a root.
pub open spec fn has_root(tables: Seq<TableRef>) -> spec_fn(int) -> bool {
    |i: int| tables[i].merge is Some && tables[i].merge->0.root is Some
}

/// The child tables that commits list are all that merge and have a root, in their order.
pub proof fn law_every_child_table_is_listed(tables: Seq<TableRef>, n: int) -> (at: Seq<int>)
    requires
        0 <= n <= tables.len() <= usize::MAX,
    ensures
        is_pick(at, n, has_root(tables)),
        followers(tables, n).len() == at.len(),
        forall|k: int| 0 <= k < at.len() ==> #[trigger] followers(tables, n)[k] == at[k],
    decreases n,
{
    if n <= 0 {
        Seq::empty()
    } else {
        let before = law_every_child_table_is_listed(tables, n - 1);
        let earlier = followers(tables, n - 1);
        let at = lemma_pick_next(before, n - 1, has_root(tables));
        assert forall|k: int| 0 <= k < at.len() implies #[trigger] followers(tables, n)[k]
            == at[k] by {
            if k < before.len() {
                assert(followers(tables, n)[k] == earlier[k]);
            }
        }
        at
    }
}

/// Picks the child tables of `root`.
pub open spec fn is_child_of(children: Seq<(usize, usize)>, root: usize) -> spec_fn(int) -> bool {
    |i: int| children[i].0 == root
}

/// A family is its root and then all the child tables of that root, in their order.
pub proof fn law_families_are_whole(children: Seq<(usize, usize)>, root: usize, n: int) -> (at: Seq<
    int,
>)
    requires
        0 <= n <= children.len(),
    ensures
        is_pick(at, n, is_child_of(children, root)),
        children_of(children, root, n).len() == at.len(),
        forall|k: int|
            0 <= k < at.len() ==> #[trigger] children_of(children, root, n)[k] == children[at[k]].1,
    decreases n,
{
    if n <= 0 {
        Seq::empty()
    } else {
        let before = law_families_are_whole(children, root, n - 1);
        let earlier = children_of(children, root, n - 1);
        let at = lemma_pick_next(before, n - 1, is_child_of(children, root));
        assert forall|k: int| 0 <= k < at.len() implies #[trigger] children_of(children, root, n)[k]
            == children[at[k]].1 by {
            if k < before.len() {
                assert(children_of(children, root, n)[k] == earlier[k]);
            }
        }
        at
    }
}

} // verus!
