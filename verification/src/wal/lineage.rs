//! The tables a manifest records, and the chains of parents their schemas record.

use crate::wal::record::RecordedSchema;
use vstd::hash_map::StringHashMap;
use vstd::prelude::*;

verus! {

/// A table's latest schema, and how its stream writes.
#[derive(Debug)]
pub struct SchemaEntry {
    pub schema: RecordedSchema,
    pub mode: String,
}

impl Clone for SchemaEntry {
    fn clone(&self) -> (copy: Self)
        ensures
            copy == *self,
    {
        SchemaEntry { schema: self.schema.clone(), mode: self.mode.clone() }
    }
}

/// The name of the table `entry` describes.
pub open spec fn table_of(entry: SchemaEntry) -> Seq<char> {
    entry.schema.table@
}

/// Whether `entries` describe the table `name`.
pub open spec fn describes(entries: Seq<SchemaEntry>, name: Seq<char>) -> bool {
    exists|i: int| 0 <= i < entries.len() && table_of(#[trigger] entries[i]) == name
}

/// The position of the entry describing the table `name`.
pub open spec fn position(entries: Seq<SchemaEntry>, name: Seq<char>) -> int {
    choose|i: int| 0 <= i < entries.len() && table_of(#[trigger] entries[i]) == name
}

/// Whether no two entries describe one table.
pub open spec fn distinct(entries: Seq<SchemaEntry>) -> bool {
    forall|i: int, j: int|
        0 <= i < j < entries.len() ==> table_of(#[trigger] entries[i]) != table_of(
            #[trigger] entries[j],
        )
}

/// `entries` once `entry` is recorded: in place of its table's earlier entry, or at the end.
pub open spec fn put(entries: Seq<SchemaEntry>, entry: SchemaEntry) -> Seq<SchemaEntry> {
    if describes(entries, table_of(entry)) {
        entries.update(position(entries, table_of(entry)), entry)
    } else {
        entries.push(entry)
    }
}

/// Recording an entry keeps the tables distinct, and makes it its table's entry.
pub proof fn lemma_put(entries: Seq<SchemaEntry>, entry: SchemaEntry)
    requires
        distinct(entries),
    ensures
        distinct(put(entries, entry)),
        describes(put(entries, entry), table_of(entry)),
        put(entries, entry)[position(put(entries, entry), table_of(entry))] == entry,
        forall|name: Seq<char>|
            name != table_of(entry) ==> describes(put(entries, entry), name) == describes(
                entries,
                name,
            ),
        forall|name: Seq<char>|
            name != table_of(entry) && describes(entries, name) ==> put(entries, entry)[position(
                put(entries, entry),
                name,
            )] == entries[position(entries, name)],
{
    let name = table_of(entry);
    let after = put(entries, entry);
    let at = if describes(entries, name) {
        position(entries, name)
    } else {
        entries.len() as int
    };
    assert(after[at] == entry);
    assert forall|other: Seq<char>| other != name implies describes(after, other) == describes(
        entries,
        other,
    ) by {
        if describes(after, other) {
            let i = position(after, other);
            assert(entries[i] == after[i]);
        }
        if describes(entries, other) {
            let i = position(entries, other);
            assert(after[i] == entries[i]);
        }
    }
    assert forall|other: Seq<char>| other != name && describes(entries, other) implies after[position(
        after,
        other,
    )] == entries[position(entries, other)] by {
        let i = position(entries, other);
        assert(after[i] == entries[i]);
        let j = position(after, other);
        assert(after[j] == entries[j]);
    }
}

/// In `entries` of distinct tables, the entry at `i` is the one its table's position gives.
pub proof fn lemma_position(entries: Seq<SchemaEntry>, i: int)
    requires
        distinct(entries),
        0 <= i < entries.len(),
    ensures
        describes(entries, table_of(entries[i])),
        position(entries, table_of(entries[i])) == i,
{
    let j = position(entries, table_of(entries[i]));
    assert(table_of(entries[j]) == table_of(entries[i]));
}

/// The position of the `hops`-th ancestor of the table at `i`, where its chain has so many.
pub open spec fn ancestor(entries: Seq<SchemaEntry>, i: int, hops: nat) -> Option<int>
    decreases hops,
{
    if hops == 0 {
        Some(i)
    } else {
        match entries[i].schema.parent {
            None => None,
            Some(parent) => if describes(entries, parent@) {
                ancestor(entries, position(entries, parent@), (hops - 1) as nat)
            } else {
                None
            },
        }
    }
}

/// Where the chain of parents of a table ends.
#[derive(Debug)]
pub enum Ancestry {
    /// At the table at this position, which has no parent.
    Root(usize),
    /// At a parent no entry describes.
    Missing(String),
    /// Nowhere: the chain runs in a circle.
    Endless,
}

/// Whether the chain of the table at `i` reaches `r`, which has no parent.
pub open spec fn ends_at(entries: Seq<SchemaEntry>, i: int, r: int) -> bool {
    exists|hops: nat| #[trigger] ancestor(entries, i, hops) == Some(r) && entries[r].schema.parent is None
}

/// Whether the chain of the table at `i` reaches a table whose parent `name` no entry describes.
pub open spec fn ends_missing(entries: Seq<SchemaEntry>, i: int, name: Seq<char>) -> bool {
    exists|hops: nat|
        match #[trigger] ancestor(entries, i, hops) {
            Some(j) => match entries[j].schema.parent {
                Some(parent) => parent@ == name && !describes(entries, name),
                None => false,
            },
            None => false,
        }
}

/// Whether the chain of the table at `i` has every number of ancestors.
pub open spec fn endless(entries: Seq<SchemaEntry>, i: int) -> bool {
    forall|hops: nat| #[trigger] ancestor(entries, i, hops) is Some
}

/// Whether `ancestry` is where the chain of the table at `i` ends.
pub open spec fn is_ancestry(entries: Seq<SchemaEntry>, i: int, ancestry: Ancestry) -> bool {
    match ancestry {
        Ancestry::Root(r) => r < entries.len() && ends_at(entries, i, r as int),
        Ancestry::Missing(name) => ends_missing(entries, i, name@),
        Ancestry::Endless => endless(entries, i),
    }
}

proof fn lemma_ancestor_in_range(entries: Seq<SchemaEntry>, i: int, hops: nat)
    requires
        0 <= i < entries.len(),
    ensures
        match ancestor(entries, i, hops) {
            Some(j) => 0 <= j < entries.len(),
            None => true,
        },
    decreases hops,
{
    if hops > 0 {
        match entries[i].schema.parent {
            Some(parent) => {
                if describes(entries, parent@) {
                    lemma_ancestor_in_range(
                        entries,
                        position(entries, parent@),
                        (hops - 1) as nat,
                    );
                }
            },
            None => {},
        }
    }
}

/// Ancestors of ancestors are ancestors.
pub proof fn lemma_ancestor_adds(entries: Seq<SchemaEntry>, i: int, a: nat, b: nat)
    requires
        ancestor(entries, i, a) is Some,
    ensures
        ancestor(entries, i, a + b) == ancestor(entries, ancestor(entries, i, a)->0, b),
    decreases a,
{
    if a > 0 {
        let parent = entries[i].schema.parent->0;
        lemma_ancestor_adds(entries, position(entries, parent@), (a - 1) as nat, b);
        assert((a + b - 1) as nat == (a - 1) as nat + b);
    }
}

/// A chain with `a` ancestors has every lesser number of them.
proof fn lemma_ancestor_prefix(entries: Seq<SchemaEntry>, i: int, a: nat, b: nat)
    requires
        ancestor(entries, i, a) is Some,
        b <= a,
    ensures
        ancestor(entries, i, b) is Some,
    decreases a,
{
    if b > 0 {
        let parent = entries[i].schema.parent->0;
        lemma_ancestor_prefix(
            entries,
            position(entries, parent@),
            (a - 1) as nat,
            (b - 1) as nat,
        );
    }
}

/// A table that is its own ancestor has an endless chain.
proof fn lemma_circle_is_endless(entries: Seq<SchemaEntry>, i: int, around: nat)
    requires
        around > 0,
        ancestor(entries, i, around) == Some(i),
    ensures
        endless(entries, i),
{
    assert forall|hops: nat| #[trigger] ancestor(entries, i, hops) is Some by {
        lemma_circle_reaches(entries, i, around, hops);
    }
}

proof fn lemma_circle_reaches(entries: Seq<SchemaEntry>, i: int, around: nat, hops: nat)
    requires
        around > 0,
        ancestor(entries, i, around) == Some(i),
    ensures
        ancestor(entries, i, hops) is Some,
    decreases hops,
{
    if hops <= around {
        lemma_ancestor_prefix(entries, i, around, hops);
    } else {
        let rest = (hops - around) as nat;
        lemma_circle_reaches(entries, i, around, rest);
        lemma_ancestor_adds(entries, i, around, rest);
        assert(around + rest == hops);
    }
}

/// A chain ends at one table.
pub proof fn lemma_one_root(entries: Seq<SchemaEntry>, i: int, r: int, s: int)
    requires
        ends_at(entries, i, r),
        ends_at(entries, i, s),
    ensures
        r == s,
{
    let a = choose|a: nat| #[trigger] ancestor(entries, i, a) == Some(r) && entries[r].schema.parent is None;
    let b = choose|b: nat| #[trigger] ancestor(entries, i, b) == Some(s) && entries[s].schema.parent is None;
    lemma_nothing_above(entries, i, a, b);
    lemma_nothing_above(entries, i, b, a);
}

/// Above a table whose parent is not described, or that has none, a chain has no ancestor.
proof fn lemma_nothing_above(entries: Seq<SchemaEntry>, i: int, a: nat, b: nat)
    requires
        ancestor(entries, i, a) is Some,
        ancestor(entries, i, b) is Some,
        match entries[ancestor(entries, i, a)->0].schema.parent {
            Some(parent) => !describes(entries, parent@),
            None => true,
        },
    ensures
        b <= a,
{
    if b > a {
        lemma_ancestor_adds(entries, i, a, (b - a) as nat);
        assert(a + (b - a) as nat == b);
    }
}

/// A chain that ends at a root meets no parent that is not described.
pub proof fn lemma_root_or_missing(entries: Seq<SchemaEntry>, i: int, r: int, name: Seq<char>)
    requires
        ends_at(entries, i, r),
    ensures
        !ends_missing(entries, i, name),
{
    let a = choose|a: nat| #[trigger] ancestor(entries, i, a) == Some(r) && entries[r].schema.parent is None;
    if ends_missing(entries, i, name) {
        let b = choose|b: nat|
            match #[trigger] ancestor(entries, i, b) {
                Some(j) => match entries[j].schema.parent {
                    Some(parent) => parent@ == name && !describes(entries, name),
                    None => false,
                },
                None => false,
            };
        lemma_nothing_above(entries, i, a, b);
        lemma_nothing_above(entries, i, b, a);
    }
}

/// A chain that ends at a root is not endless.
pub proof fn lemma_root_or_endless(entries: Seq<SchemaEntry>, i: int, r: int)
    requires
        ends_at(entries, i, r),
    ensures
        !endless(entries, i),
{
    let a = choose|a: nat| #[trigger] ancestor(entries, i, a) == Some(r) && entries[r].schema.parent is None;
    if endless(entries, i) {
        assert(ancestor(entries, i, a + 1) is Some);
        lemma_nothing_above(entries, i, a, a + 1);
    }
}

/// A chain leads to one undescribed parent, at most, and is then not endless.
pub proof fn lemma_one_missing(entries: Seq<SchemaEntry>, i: int, name: Seq<char>, other: Seq<char>)
    requires
        ends_missing(entries, i, name),
    ensures
        ends_missing(entries, i, other) ==> other == name,
        !endless(entries, i),
{
    let a = lemma_missing_at(entries, i, name);
    if ends_missing(entries, i, other) {
        let b = lemma_missing_at(entries, i, other);
        lemma_nothing_above(entries, i, a, b);
        lemma_nothing_above(entries, i, b, a);
    }
    if endless(entries, i) {
        assert(ancestor(entries, i, a + 1) is Some);
        lemma_nothing_above(entries, i, a, a + 1);
    }
}

/// How far up a chain the table with the undescribed parent stands.
proof fn lemma_missing_at(entries: Seq<SchemaEntry>, i: int, name: Seq<char>) -> (hops: nat)
    requires
        ends_missing(entries, i, name),
    ensures
        ancestor(entries, i, hops) is Some,
        entries[ancestor(entries, i, hops)->0].schema.parent matches Some(parent) && parent@ == name
            && !describes(entries, name),
{
    choose|hops: nat|
        match #[trigger] ancestor(entries, i, hops) {
            Some(j) => match entries[j].schema.parent {
                Some(parent) => parent@ == name && !describes(entries, name),
                None => false,
            },
            None => false,
        }
}

/// A chain ends where the chain of any of its ancestors does.
proof fn lemma_ancestry_is_inherited(
    entries: Seq<SchemaEntry>,
    i: int,
    hops: nat,
    j: int,
    ancestry: Ancestry,
)
    requires
        ancestor(entries, i, hops) == Some(j),
        is_ancestry(entries, j, ancestry),
    ensures
        is_ancestry(entries, i, ancestry),
{
    match ancestry {
        Ancestry::Root(r) => {
            let more = choose|more: nat|
                #[trigger] ancestor(entries, j, more) == Some(r as int)
                    && entries[r as int].schema.parent is None;
            lemma_ancestor_adds(entries, i, hops, more);
            assert(ancestor(entries, i, hops + more) == Some(r as int));
        },
        Ancestry::Missing(name) => {
            let more = choose|more: nat|
                match #[trigger] ancestor(entries, j, more) {
                    Some(k) => match entries[k].schema.parent {
                        Some(parent) => parent@ == name@ && !describes(entries, name@),
                        None => false,
                    },
                    None => false,
                };
            lemma_ancestor_adds(entries, i, hops, more);
            assert(ancestor(entries, i, hops + more) == ancestor(entries, j, more));
        },
        Ancestry::Endless => {
            assert forall|n: nat| #[trigger] ancestor(entries, i, n) is Some by {
                if n <= hops {
                    lemma_ancestor_prefix(entries, i, hops, n);
                } else {
                    let more = (n - hops) as nat;
                    lemma_ancestor_adds(entries, i, hops, more);
                    assert(ancestor(entries, j, more) is Some);
                    assert(hops + more == n);
                }
            }
        },
    }
}

/// What a table's parent is among the tables recorded.
#[derive(Debug)]
pub enum Link {
    /// It has none.
    Root,
    /// The table at this position.
    Parent(usize),
    /// One no entry describes.
    Missing,
}

/// Whether `link` is what the parent of the table at `i` is.
pub open spec fn is_link(entries: Seq<SchemaEntry>, i: int, link: Link) -> bool {
    match link {
        Link::Root => entries[i].schema.parent is None,
        Link::Parent(j) => match entries[i].schema.parent {
            Some(parent) => describes(entries, parent@) && position(entries, parent@) == j && j
                < entries.len(),
            None => false,
        },
        Link::Missing => match entries[i].schema.parent {
            Some(parent) => !describes(entries, parent@),
            None => false,
        },
    }
}

/// Whether `links` are the parents of `entries`.
pub open spec fn are_links(entries: Seq<SchemaEntry>, links: Seq<Link>) -> bool {
    &&& links.len() == entries.len()
    &&& forall|i: int| 0 <= i < links.len() ==> is_link(entries, i, #[trigger] links[i])
}

/// The latest entry of every table a manifest records, each table once, in the order they were
/// first recorded.
pub struct SchemaLog {
    entries: Vec<SchemaEntry>,
    index: StringHashMap<usize>,
}

impl View for SchemaLog {
    type V = Seq<SchemaEntry>;

    closed spec fn view(&self) -> Seq<SchemaEntry> {
        self.entries@
    }
}

impl SchemaLog {
    /// The index names every table's position, and nothing else.
    pub closed spec fn wf(&self) -> bool {
        &&& distinct(self.entries@)
        &&& forall|i: int|
            0 <= i < self.entries@.len() ==> self.index@.contains_key(
                table_of(#[trigger] self.entries@[i]),
            ) && self.index@[table_of(self.entries@[i])] == i
        &&& forall|name: Seq<char>| #[trigger]
            self.index@.contains_key(name) ==> self.index@[name] < self.entries@.len() && table_of(
                self.entries@[self.index@[name] as int],
            ) == name
    }

    /// A log holds each table once.
    pub proof fn lemma_distinct(&self)
        requires
            self.wf(),
        ensures
            distinct(self@),
            self@.len() <= usize::MAX,
    {
        assert(self.entries.len() == self.entries@.len());
    }

    /// A log of no table.
    pub fn new() -> (log: SchemaLog)
        ensures
            log.wf(),
            log@ == Seq::<SchemaEntry>::empty(),
    {
        SchemaLog { entries: Vec::new(), index: StringHashMap::new() }
    }

    /// How many tables the log holds.
    pub fn len(&self) -> (len: usize)
        ensures
            len == self@.len(),
    {
        self.entries.len()
    }

    /// The entry at `i`.
    pub fn get(&self, i: usize) -> (entry: &SchemaEntry)
        requires
            i < self@.len(),
        ensures
            *entry == self@[i as int],
    {
        &self.entries[i]
    }

    /// The position of the table `name`, if it is recorded.
    pub fn find(&self, name: &str) -> (found: Option<usize>)
        requires
            self.wf(),
        ensures
            match found {
                Some(i) => describes(self@, name@) && i < self@.len() && i == position(
                    self@,
                    name@,
                ) && table_of(self@[i as int]) == name@,
                None => !describes(self@, name@),
            },
    {
        match self.index.get(name) {
            Some(i) => {
                proof {
                    lemma_position(self@, *i as int);
                }
                Some(*i)
            },
            None => {
                proof {
                    if describes(self@, name@) {
                        let i = position(self@, name@);
                        assert(self.index@.contains_key(table_of(self.entries@[i])));
                    }
                }
                None
            },
        }
    }

    /// Records `entry` as its table's latest.
    pub fn record(&mut self, entry: SchemaEntry)
        requires
            old(self).wf(),
        ensures
            final(self).wf(),
            final(self)@ == put(old(self)@, entry),
    {
        proof {
            lemma_put(self@, entry);
        }
        match self.find(entry.schema.table.as_str()) {
            Some(i) => {
                self.entries.set(i, entry);
            },
            None => {
                let at: usize = self.entries.len();
                self.index.insert(entry.schema.table.clone(), at);
                self.entries.push(entry);
            },
        }
    }

    /// Every table's parent.
    pub fn links(&self) -> (links: Vec<Link>)
        requires
            self.wf(),
        ensures
            are_links(self@, links@),
    {
        let mut links: Vec<Link> = Vec::new();
        let mut i: usize = 0;
        while i < self.entries.len()
            invariant
                self.wf(),
                i <= self@.len(),
                i == links@.len(),
                forall|k: int| 0 <= k < i ==> is_link(self@, k, #[trigger] links@[k]),
            decreases self.entries.len() - i,
        {
            let link: Link = match &self.entries[i].schema.parent {
                None => Link::Root,
                Some(parent) => match self.find(parent.as_str()) {
                    Some(j) => Link::Parent(j),
                    None => Link::Missing,
                },
            };
            links.push(link);
            i = i + 1;
        }
        links
    }
}

/// Positions below `n` that are all different are at most `n`.
proof fn lemma_distinct_positions(path: Seq<usize>, n: nat)
    requires
        path.no_duplicates(),
        forall|q: int| 0 <= q < path.len() ==> (#[trigger] path[q]) < n,
    ensures
        path.len() <= n,
{
    let spots = path.map_values(|p: usize| p as int);
    assert(spots.no_duplicates());
    spots.unique_seq_to_set();
    vstd::set_lib::lemma_int_range(0, n as int);
    assert forall|x: int| spots.to_set().contains(x) implies vstd::set_lib::set_int_range(
        0,
        n as int,
    ).contains(x) by {
        let q = choose|q: int| 0 <= q < spots.len() && spots[q] == x;
        assert(path[q] < n);
    }
    vstd::set_lib::lemma_len_subset(spots.to_set(), vstd::set_lib::set_int_range(0, n as int));
}

impl Ancestry {
    /// The same ancestry again.
    fn again(&self) -> (copy: Ancestry)
        ensures
            copy == *self,
    {
        match self {
            Ancestry::Root(r) => Ancestry::Root(*r),
            Ancestry::Missing(name) => Ancestry::Missing(name.clone()),
            Ancestry::Endless => Ancestry::Endless,
        }
    }
}

/// Whether what `known` says of any table is where its chain ends.
spec fn all_known(entries: Seq<SchemaEntry>, known: Seq<Option<Ancestry>>) -> bool {
    &&& known.len() == entries.len()
    &&& forall|i: int|
        0 <= i < known.len() && (#[trigger] known[i]) is Some ==> is_ancestry(
            entries,
            i,
            known[i]->0,
        )
}

/// Whether `path` climbs to `cur`, each table to its parent.
spec fn climbs(entries: Seq<SchemaEntry>, path: Seq<usize>, cur: int) -> bool {
    forall|q: int|
        0 <= q < path.len() ==> ancestor(
            entries,
            #[trigger] path[q] as int,
            (path.len() - q) as nat,
        ) == Some(cur)
}

proof fn lemma_climb_on(entries: Seq<SchemaEntry>, path: Seq<usize>, cur: usize, next: int)
    requires
        climbs(entries, path, cur as int),
        ancestor(entries, cur as int, 1) == Some(next),
    ensures
        climbs(entries, path.push(cur), next),
{
    let longer = path.push(cur);
    assert forall|q: int| 0 <= q < longer.len() implies ancestor(
        entries,
        #[trigger] longer[q] as int,
        (longer.len() - q) as nat,
    ) == Some(next) by {
        if q < path.len() {
            assert(longer[q] == path[q]);
            lemma_ancestor_adds(entries, path[q] as int, (path.len() - q) as nat, 1);
        }
    }
}

impl SchemaLog {
    /// Where the chain of the table at `start` ends; what it finds of the tables on the way goes
    /// to `known`, so that every table is climbed from once.
    fn climb(
        &self,
        links: &Vec<Link>,
        start: usize,
        known: &mut Vec<Option<Ancestry>>,
        marks: &mut Vec<usize>,
    )
        requires
            self.wf(),
            are_links(self@, links@),
            start < self@.len(),
            all_known(self@, old(known)@),
            old(marks)@.len() == self@.len(),
            forall|i: int| 0 <= i < old(marks)@.len() ==> #[trigger] old(marks)@[i] != start,
        ensures
            all_known(self@, final(known)@),
            final(known)@[start as int] is Some,
            forall|i: int|
                0 <= i < self@.len() && (#[trigger] old(known)@[i]) is Some ==> final(known)@[i] is Some,
            final(marks)@.len() == self@.len(),
            forall|i: int|
                0 <= i < self@.len() ==> #[trigger] final(marks)@[i] == old(marks)@[i]
                    || final(marks)@[i] == start,
    {
        let ghost entries = self@;
        let mut path: Vec<usize> = Vec::new();
        let mut cur: usize = start;
        let mut found: Option<Ancestry> = None;
        while found.is_none()
            invariant
                entries == self@,
                self.wf(),
                are_links(entries, links@),
                start < entries.len(),
                cur < entries.len(),
                known@ == old(known)@,
                all_known(entries, known@),
                marks@.len() == entries.len(),
                climbs(entries, path@, cur as int),
                path@.no_duplicates(),
                forall|q: int|
                    0 <= q < path@.len() ==> (#[trigger] path@[q]) < entries.len()
                        && marks@[path@[q] as int] == start,
                forall|i: int|
                    0 <= i < marks@.len() && #[trigger] marks@[i] == start ==> path@.contains(
                        i as usize,
                    ),
                path@.len() > 0 ==> path@[0] == start,
                path@.len() == 0 ==> cur == start,
                forall|i: int|
                    0 <= i < entries.len() ==> #[trigger] marks@[i] == old(marks)@[i] || marks@[i]
                        == start,
                found is Some ==> is_ancestry(entries, cur as int, found->0),
            decreases
                    (if found is None {
                        entries.len() + 1 - path@.len()
                    } else {
                        0
                    }),
        {
            proof {
                lemma_distinct_positions(path@, entries.len());
            }
            match &known[cur] {
                Some(ancestry) => {
                    found = Some(ancestry.again());
                },
                None => {
                    if marks[cur] == start {
                        proof {
                            let q = choose|q: int| 0 <= q < path@.len() && path@[q] == cur;
                            lemma_circle_is_endless(
                                entries,
                                cur as int,
                                (path@.len() - q) as nat,
                            );
                        }
                        found = Some(Ancestry::Endless);
                    } else {
                        match &links[cur] {
                            Link::Root => {
                                proof {
                                    assert(is_link(entries, cur as int, links@[cur as int]));
                                    assert(ancestor(entries, cur as int, 0) == Some(cur as int));
                                }
                                found = Some(Ancestry::Root(cur));
                            },
                            Link::Missing => {
                                proof {
                                    assert(is_link(entries, cur as int, links@[cur as int]));
                                    assert(ancestor(entries, cur as int, 0) == Some(cur as int));
                                }
                                match &self.entries[cur].schema.parent {
                                    Some(parent) => {
                                        found = Some(Ancestry::Missing(parent.clone()));
                                    },
                                    None => {
                                        assert(false);
                                    },
                                }
                            },
                            Link::Parent(next) => {
                                let next: usize = *next;
                                proof {
                                    assert(is_link(entries, cur as int, links@[cur as int]));
                                    assert(ancestor(entries, next as int, 0) == Some(next as int));
                                    assert(ancestor(entries, cur as int, 1) == Some(next as int));
                                    lemma_climb_on(entries, path@, cur, next as int);
                                    if path@.contains(cur) {
                                        let q = choose|q: int|
                                            0 <= q < path@.len() && path@[q] == cur;
                                        assert(marks@[path@[q] as int] == start);
                                    }
                                }
                                let ghost before = path@;
                                path.push(cur);
                                marks.set(cur, start);
                                proof {
                                    assert forall|i: int|
                                        0 <= i < marks@.len() && #[trigger] marks@[i]
                                            == start implies path@.contains(i as usize) by {
                                        if i == cur {
                                            assert(path@[before.len() as int] == cur);
                                        } else {
                                            let q = choose|q: int|
                                                0 <= q < before.len() && before[q] == i as usize;
                                            assert(path@[q] == i as usize);
                                        }
                                    }
                                }
                                cur = next;
                            },
                        }
                    }
                },
            }
        }
        match found {
            Some(ancestry) => {
                known.set(cur, Some(ancestry.again()));
                let mut q: usize = 0;
                while q < path.len()
                    invariant
                        entries == self@,
                        q <= path@.len(),
                        cur < entries.len(),
                        known@.len() == entries.len(),
                        is_ancestry(entries, cur as int, ancestry),
                        climbs(entries, path@, cur as int),
                        all_known(entries, known@),
                        known@[cur as int] is Some,
                        forall|k: int|
                            0 <= k < path@.len() ==> (#[trigger] path@[k]) < entries.len(),
                        forall|k: int|
                            0 <= k < q ==> known@[(#[trigger] path@[k]) as int] is Some,
                        forall|i: int|
                            0 <= i < entries.len() && (#[trigger] old(known)@[i]) is Some
                                ==> known@[i] is Some,
                    decreases path.len() - q,
                {
                    proof {
                        lemma_ancestry_is_inherited(
                            entries,
                            path@[q as int] as int,
                            (path@.len() - q) as nat,
                            cur as int,
                            ancestry,
                        );
                    }
                    known.set(path[q], Some(ancestry.again()));
                    q = q + 1;
                }
            },
            None => {
                assert(false);
            },
        }
    }

    /// Where every table's chain of parents ends.
    pub fn ancestries(&self, links: &Vec<Link>) -> (known: Vec<Option<Ancestry>>)
        requires
            self.wf(),
            are_links(self@, links@),
        ensures
            known@.len() == self@.len(),
            forall|i: int|
                0 <= i < known@.len() ==> (#[trigger] known@[i]) is Some && is_ancestry(
                    self@,
                    i,
                    known@[i]->0,
                ),
    {
        let n: usize = self.entries.len();
        let mut known: Vec<Option<Ancestry>> = Vec::new();
        let mut marks: Vec<usize> = Vec::new();
        let mut i: usize = 0;
        while i < n
            invariant
                i <= n,
                n == self@.len(),
                known@.len() == i,
                marks@.len() == i,
                forall|k: int| 0 <= k < i ==> (#[trigger] known@[k]) is None,
                forall|k: int| 0 <= k < i ==> #[trigger] marks@[k] == n,
            decreases n - i,
        {
            known.push(None);
            marks.push(n);
            i = i + 1;
        }
        let mut start: usize = 0;
        while start < n
            invariant
                start <= n,
                n == self@.len(),
                self.wf(),
                are_links(self@, links@),
                all_known(self@, known@),
                marks@.len() == n,
                forall|k: int|
                    0 <= k < n ==> (#[trigger] marks@[k]) < start || marks@[k] == n,
                forall|k: int| 0 <= k < start ==> (#[trigger] known@[k]) is Some,
            decreases n - start,
        {
            let ghost before = known@;
            self.climb(links, start, &mut known, &mut marks);
            proof {
                assert forall|k: int| 0 <= k < start implies (#[trigger] known@[k]) is Some by {
                    assert(before[k] is Some);
                }
            }
            start = start + 1;
        }
        known
    }
}

/// Whether the table at `i` is one of the tables `written`, or an ancestor of one.
pub open spec fn is_live(entries: Seq<SchemaEntry>, written: Seq<usize>, i: int) -> bool {
    exists|w: int, hops: nat|
        0 <= w < written.len() && #[trigger] ancestor(entries, written[w] as int, hops) == Some(i)
}

/// Whether the chain of the table at `i` ends at a table without a parent.
pub open spec fn is_rooted(entries: Seq<SchemaEntry>, i: int) -> bool {
    exists|r: int| 0 <= r < entries.len() && #[trigger] ends_at(entries, i, r)
}

/// Whether every parent of a live table is live, but for `cur`.
spec fn closed_but(links: Seq<Link>, live: Seq<bool>, cur: int) -> bool {
    forall|i: int|
        0 <= i < live.len() && #[trigger] live[i] ==> match links[i] {
            Link::Parent(j) => j == cur || live[j as int],
            _ => true,
        }
}

proof fn lemma_closed_reaches(
    entries: Seq<SchemaEntry>,
    links: Seq<Link>,
    live: Seq<bool>,
    i: int,
    hops: nat,
)
    requires
        live.len() == entries.len(),
        are_links(entries, links),
        closed_but(links, live, -1),
        0 <= i < entries.len(),
        live[i],
        ancestor(entries, i, hops) is Some,
    ensures
        0 <= ancestor(entries, i, hops)->0 < entries.len(),
        live[ancestor(entries, i, hops)->0],
    decreases hops,
{
    if hops > 0 {
        assert(is_link(entries, i, links[i]));
        let parent = entries[i].schema.parent->0;
        let j = position(entries, parent@);
        lemma_closed_reaches(entries, links, live, j, (hops - 1) as nat);
    }
}

impl SchemaLog {
    /// Marks the table at `start` and its ancestors live, up to the first that already is.
    fn mark_live(&self, links: &Vec<Link>, start: usize, live: &mut Vec<bool>)
        requires
            self.wf(),
            are_links(self@, links@),
            start < self@.len(),
            old(live)@.len() == self@.len(),
            closed_but(links@, old(live)@, -1),
            is_rooted(self@, start as int),
        ensures
            final(live)@.len() == self@.len(),
            closed_but(links@, final(live)@, -1),
            final(live)@[start as int],
            forall|k: int| 0 <= k < self@.len() && #[trigger] old(live)@[k] ==> final(live)@[k],
            forall|k: int|
                0 <= k < self@.len() && #[trigger] final(live)@[k] ==> old(live)@[k]
                    || exists|hops: nat| #[trigger] ancestor(self@, start as int, hops) == Some(k),
    {
        let ghost entries = self@;
        let mut cur: usize = start;
        let mut climbing: bool = true;
        let ghost mut climbed: nat = 0;
        let ghost mut left: nat;
        let ghost root: int;
        proof {
            root = choose|r: int| 0 <= r < entries.len() && #[trigger] ends_at(entries, start as int, r);
            left = choose|hops: nat|
                #[trigger] ancestor(entries, start as int, hops) == Some(root)
                    && entries[root].schema.parent is None;
            assert(ancestor(entries, cur as int, 0) == Some(cur as int));
        }
        while climbing
            invariant
                entries == self@,
                self.wf(),
                are_links(entries, links@),
                start < entries.len(),
                cur < entries.len(),
                live@.len() == entries.len(),
                old(live)@.len() == entries.len(),
                0 <= root < entries.len(),
                entries[root].schema.parent is None,
                ancestor(entries, start as int, climbed) == Some(cur as int),
                ancestor(entries, cur as int, left) == Some(root),
                climbing ==> closed_but(links@, live@, cur as int),
                !climbing ==> closed_but(links@, live@, -1),
                climbed > 0 || !climbing ==> live@[start as int],
                climbed == 0 ==> cur == start,
                forall|k: int| 0 <= k < entries.len() && #[trigger] old(live)@[k] ==> live@[k],
                forall|k: int|
                    0 <= k < entries.len() && #[trigger] live@[k] ==> old(live)@[k]
                        || exists|hops: nat|
                        #[trigger] ancestor(entries, start as int, hops) == Some(k),
            decreases
                    (if climbing {
                        left + 1
                    } else {
                        0
                    }),
        {
            if live[cur] {
                climbing = false;
            } else {
                live.set(cur, true);
                assert(is_link(entries, cur as int, links@[cur as int]));
                match &links[cur] {
                    Link::Parent(next) => {
                        proof {
                            let next = *next as int;
                            assert(ancestor(entries, next, 0) == Some(next));
                            assert(ancestor(entries, cur as int, 1) == Some(next));
                            lemma_ancestor_adds(entries, start as int, climbed, 1);
                            climbed = climbed + 1;
                            assert(left > 0);
                            left = (left - 1) as nat;
                        }
                        cur = *next;
                    },
                    _ => {
                        assert(ancestor(entries, cur as int, 1) is None);
                        climbing = false;
                    },
                }
            }
        }
    }

    /// Which tables are live when `written` are: those, and all their ancestors. Each table is
    /// reached once, since a live table's ancestors already are.
    pub fn live(&self, links: &Vec<Link>, written: &Vec<usize>) -> (live: Vec<bool>)
        requires
            self.wf(),
            are_links(self@, links@),
            forall|w: int|
                0 <= w < written@.len() ==> (#[trigger] written@[w]) < self@.len() && is_rooted(
                    self@,
                    written@[w] as int,
                ),
        ensures
            live@.len() == self@.len(),
            forall|i: int|
                0 <= i < live@.len() ==> #[trigger] live@[i] == is_live(self@, written@, i),
    {
        let n: usize = self.entries.len();
        let ghost entries = self@;
        let mut live: Vec<bool> = Vec::new();
        let mut i: usize = 0;
        while i < n
            invariant
                i <= n,
                live@.len() == i,
                forall|k: int| 0 <= k < i ==> !#[trigger] live@[k],
            decreases n - i,
        {
            live.push(false);
            i = i + 1;
        }
        let mut w: usize = 0;
        while w < written.len()
            invariant
                entries == self@,
                n == entries.len(),
                self.wf(),
                are_links(entries, links@),
                w <= written@.len(),
                live@.len() == n,
                closed_but(links@, live@, -1),
                forall|k: int|
                    0 <= k < written@.len() ==> (#[trigger] written@[k]) < n && is_rooted(
                        entries,
                        written@[k] as int,
                    ),
                forall|k: int| 0 <= k < w ==> live@[(#[trigger] written@[k]) as int],
                forall|k: int| 0 <= k < n && #[trigger] live@[k] ==> is_live(entries, written@, k),
            decreases written.len() - w,
        {
            let ghost marked = live@;
            self.mark_live(links, written[w], &mut live);
            proof {
                assert forall|k: int| 0 <= k < w implies live@[(#[trigger] written@[k]) as int] by {
                    assert(marked[written@[k] as int]);
                }
                assert forall|k: int| 0 <= k < n && #[trigger] live@[k] implies is_live(
                    entries,
                    written@,
                    k,
                ) by {
                    if !marked[k] {
                        let hops = choose|hops: nat|
                            #[trigger] ancestor(entries, written@[w as int] as int, hops) == Some(
                                k,
                            );
                        assert(ancestor(entries, written@[w as int] as int, hops) == Some(k));
                    }
                }
            }
            w = w + 1;
        }
        proof {
            assert forall|i: int| 0 <= i < n implies #[trigger] live@[i] == is_live(
                entries,
                written@,
                i,
            ) by {
                if is_live(entries, written@, i) {
                    let (w, hops) = choose|w: int, hops: nat|
                        0 <= w < written@.len() && #[trigger] ancestor(
                            entries,
                            written@[w] as int,
                            hops,
                        ) == Some(i);
                    assert(live@[written@[w] as int]);
                    lemma_closed_reaches(entries, links@, live@, written@[w] as int, hops);
                }
            }
        }
        live
    }
}

} // verus!
