//! Which of a span's segments a resumed run may replay: those a checkpoint of their own stream
//! follows, since only its cursor makes re-extraction skip their rows.

use crate::text::{
    dec, lemma_bytes_before_irreflexive, lemma_name_before_total, lemma_name_ordered_strict,
    name_before, name_ordered, order_of, orders, push_decimal,
};
use crate::wal::lineage::{
    describes, endless, ends_at, ends_missing, is_ancestry, is_rooted, lemma_one_missing,
    lemma_one_root, lemma_root_or_endless, lemma_root_or_missing, position, table_of, Ancestry, Link,
    SchemaEntry, SchemaLog,
};
use crate::wal::record::WalRecord;
use vstd::hash_map::StringHashMap;
use vstd::prelude::*;
use vstd::string::*;
use vstd::utf8::encode_utf8;

verus! {

/// Whether `record` is a checkpoint of the stream `stream`.
pub open spec fn checkpoints(record: WalRecord, stream: Seq<char>) -> bool {
    match record {
        WalRecord::Checkpoint { stream: of, .. } => of@ == stream,
        _ => false,
    }
}

/// Whether `span` holds a checkpoint of `stream`.
pub open spec fn checkpointed(span: Seq<WalRecord>, stream: Seq<char>) -> bool {
    exists|i: int| 0 <= i < span.len() && checkpoints(#[trigger] span[i], stream)
}

/// Whether the last checkpoint of `stream` in `span` stands at `at`.
pub open spec fn last_at(span: Seq<WalRecord>, stream: Seq<char>, at: int) -> bool {
    &&& 0 <= at < span.len()
    &&& checkpoints(span[at], stream)
    &&& forall|i: int| at < i < span.len() ==> !checkpoints(#[trigger] span[i], stream)
}

/// The position of the last checkpoint of `stream` in `span`.
pub open spec fn last_checkpoint(span: Seq<WalRecord>, stream: Seq<char>) -> int {
    choose|at: int| last_at(span, stream, at)
}

/// The root table the last checkpoint of `stream` names.
pub open spec fn stream_root(span: Seq<WalRecord>, stream: Seq<char>) -> Seq<char> {
    span[last_checkpoint(span, stream)]->root@
}

/// Whether a checkpointed stream that comes before `stream` has the same root table.
pub open spec fn shadowed(span: Seq<WalRecord>, stream: Seq<char>) -> bool {
    &&& checkpointed(span, stream)
    &&& exists|other: Seq<char>| #[trigger]
        checkpointed(span, other) && name_before(other, stream) && stream_root(span, other)
            == stream_root(span, stream)
}

/// Whether `root` is the root table of a checkpointed stream.
pub open spec fn checkpointed_root(span: Seq<WalRecord>, root: Seq<char>) -> bool {
    exists|stream: Seq<char>| #[trigger]
        checkpointed(span, stream) && stream_root(span, stream) == root
}

/// How many of the first `n` tables are parentless and normalize onto `root`.
pub open spec fn roots_onto(entries: Seq<SchemaEntry>, root: Seq<char>, n: int) -> nat
    decreases n,
{
    if n <= 0 {
        0
    } else {
        let here = entries[n - 1].schema.parent is None && entries[n - 1].schema.root@ == root;
        roots_onto(entries, root, n - 1) + if here {
            1nat
        } else {
            0nat
        }
    }
}

/// Whether the segment `record`'s table can be attributed to a root table.
pub open spec fn attributable(entries: Seq<SchemaEntry>, record: WalRecord) -> bool {
    match record {
        WalRecord::Segment { table, .. } => describes(entries, table@) && is_rooted(
            entries,
            position(entries, table@),
        ),
        _ => true,
    }
}

/// Whether `record`, at `i` in `span`, is kept: anything but a segment is, and a segment whose
/// own stream's last checkpoint follows it.
pub open spec fn is_kept(span: Seq<WalRecord>, entries: Seq<SchemaEntry>, i: int) -> bool {
    match span[i] {
        WalRecord::Segment { table, .. } => exists|stream: Seq<char>, r: int| #[trigger]
            checkpointed(span, stream) && #[trigger] ends_at(
                entries,
                position(entries, table@),
                r,
            ) && 0 <= r < entries.len() && table_of(entries[r]) == stream_root(span, stream) && i
                < last_checkpoint(span, stream),
        _ => true,
    }
}

/// Why segments cannot be attributed to streams.
#[derive(Debug)]
pub enum CoverageFault {
    /// Two checkpointed streams have this root table.
    Ambiguous { root: String },
    /// This many recorded root tables normalize onto this checkpointed root.
    Colliding { count: usize, root: String },
    /// A segment's table, or an ancestor of it, has no recorded schema: this one.
    NoSchema { table: String },
    /// The recorded parent chain of this table, which a segment holds, does not end.
    Endless { table: String },
}

impl CoverageFault {
    /// The fault in words.
    pub open spec fn text(self) -> Seq<char> {
        match self {
            CoverageFault::Ambiguous { root } =>
                "checkpointed streams normalize to one root table `"@ + root@
                + "` — segment attribution is ambiguous"@,
            CoverageFault::Colliding { count, root } => dec(count as nat)
                + " recorded root tables normalize onto checkpointed root `"@ + root@
                + "` — the stream-to-segment join is many-to-one (a normalization-rules drift shape) and cannot prove replay safe"@,
            CoverageFault::NoSchema { table } => "segment table `"@ + table@
                + "` has no schema delta anywhere in the manifest (the writer records delta-before-first-batch), so its covering stream is unknowable"@,
            CoverageFault::Endless { table } => "table `"@ + table@
                + "`'s recorded parent chain does not terminate"@,
        }
    }

    /// The fault in words.
    pub fn message(&self) -> (message: String)
        ensures
            message@ == self.text(),
    {
        let mut message = String::new();
        match self {
            CoverageFault::Ambiguous { root } => {
                message.append("checkpointed streams normalize to one root table `");
                message.append(root.as_str());
                message.append("` — segment attribution is ambiguous");
            },
            CoverageFault::Colliding { count, root } => {
                push_decimal(&mut message, *count as u128);
                message.append(" recorded root tables normalize onto checkpointed root `");
                message.append(root.as_str());
                message.append("` — the stream-to-segment join is many-to-one (a normalization-rules drift shape) and cannot prove replay safe");
            },
            CoverageFault::NoSchema { table } => {
                message.append("segment table `");
                message.append(table.as_str());
                message.append("` has no schema delta anywhere in the manifest (the writer records delta-before-first-batch), so its covering stream is unknowable");
            },
            CoverageFault::Endless { table } => {
                message.append("table `");
                message.append(table.as_str());
                message.append("`'s recorded parent chain does not terminate");
            },
        }
        proof {
            assert(message@ =~= self.text());
        }
        message
    }
}

/// Whether two checkpointed streams have one root table.
pub open spec fn ambiguous(span: Seq<WalRecord>) -> bool {
    exists|stream: Seq<char>| #[trigger] shadowed(span, stream)
}

/// Whether more than one recorded root table normalizes onto a checkpointed root.
pub open spec fn colliding(span: Seq<WalRecord>, entries: Seq<SchemaEntry>) -> bool {
    exists|root: Seq<char>| #[trigger]
        checkpointed_root(span, root) && roots_onto(entries, root, entries.len() as int) > 1
}

/// Whether `fault` is why the segments of `span` cannot be attributed: the first ambiguous root,
/// else the first colliding one, else the first segment's whose table leads to no root.
pub open spec fn is_fault(
    span: Seq<WalRecord>,
    entries: Seq<SchemaEntry>,
    fault: CoverageFault,
) -> bool {
    match fault {
        CoverageFault::Ambiguous { root } => exists|stream: Seq<char>|
            {
                &&& #[trigger] shadowed(span, stream)
                &&& stream_root(span, stream) == root@
                &&& forall|other: Seq<char>|
                    name_before(other, stream) ==> !#[trigger] shadowed(span, other)
            },
        CoverageFault::Colliding { count, root } => {
            &&& !ambiguous(span)
            &&& checkpointed_root(span, root@)
            &&& count == roots_onto(entries, root@, entries.len() as int)
            &&& count > 1
            &&& forall|other: Seq<char>|
                name_before(other, root@) && #[trigger] checkpointed_root(span, other)
                    ==> roots_onto(entries, other, entries.len() as int) <= 1
        },
        CoverageFault::NoSchema { table } => {
            &&& !ambiguous(span)
            &&& !colliding(span, entries)
            &&& exists|i: int|
                {
                    &&& 0 <= i < span.len()
                    &&& (forall|k: int|
                        0 <= k < i ==> attributable(entries, #[trigger] span[k]))
                    &&& match #[trigger] span[i] {
                        WalRecord::Segment { table: of, .. } => if describes(entries, of@) {
                            ends_missing(entries, position(entries, of@), table@)
                        } else {
                            of@ == table@
                        },
                        _ => false,
                    }
                }
        },
        CoverageFault::Endless { table } => {
            &&& !ambiguous(span)
            &&& !colliding(span, entries)
            &&& exists|i: int|
                {
                    &&& 0 <= i < span.len()
                    &&& (forall|k: int|
                        0 <= k < i ==> attributable(entries, #[trigger] span[k]))
                    &&& match #[trigger] span[i] {
                        WalRecord::Segment { table: of, .. } => of@ == table@ && describes(
                            entries,
                            of@,
                        ) && endless(entries, position(entries, of@)),
                        _ => false,
                    }
                }
        },
    }
}

/// A checkpointed stream has one last checkpoint.
pub proof fn lemma_last_checkpoint(span: Seq<WalRecord>, stream: Seq<char>)
    requires
        checkpointed(span, stream),
    ensures
        last_at(span, stream, last_checkpoint(span, stream)),
        forall|at: int| #[trigger] last_at(span, stream, at) ==> at == last_checkpoint(span, stream),
{
    let at = choose|at: int| 0 <= at < span.len() && checkpoints(#[trigger] span[at], stream);
    lemma_some_last(span, stream, at);
    let last = last_checkpoint(span, stream);
    assert forall|other: int| #[trigger] last_at(span, stream, other) implies other == last by {
        if other < last {
            assert(!checkpoints(span[last], stream));
        } else if last < other {
            assert(!checkpoints(span[other], stream));
        }
    }
}

proof fn lemma_some_last(span: Seq<WalRecord>, stream: Seq<char>, at: int)
    requires
        0 <= at < span.len(),
        checkpoints(span[at], stream),
    ensures
        exists|last: int| #[trigger] last_at(span, stream, last),
    decreases span.len() - at,
{
    if !last_at(span, stream, at) {
        let later = choose|i: int| at < i < span.len() && checkpoints(#[trigger] span[i], stream);
        lemma_some_last(span, stream, later);
    }
}

/// The checkpointed streams of a span, each once, with its last checkpoint's position.
struct Streams {
    names: Vec<String>,
    last: Vec<usize>,
}

impl Streams {
    spec fn wf(&self, span: Seq<WalRecord>) -> bool {
        &&& self.names@.len() == self.last@.len()
        &&& forall|s: int|
            0 <= s < self.names@.len() ==> last_at(
                span,
                (#[trigger] self.names@[s])@,
                self.last@[s] as int,
            )
        &&& forall|s: int, t: int|
            0 <= s < t < self.names@.len() ==> (#[trigger] self.names@[s])@ != (
            #[trigger] self.names@[t])@
        &&& forall|stream: Seq<char>| #[trigger]
            checkpointed(span, stream) ==> exists|s: int|
                0 <= s < self.names@.len() && (#[trigger] self.names@[s])@ == stream
    }
}

/// The checkpointed streams of `span`.
fn streams_of(span: &Vec<WalRecord>) -> (streams: Streams)
    ensures
        streams.wf(span@),
{
    let mut names: Vec<String> = Vec::new();
    let mut last: Vec<usize> = Vec::new();
    let mut index: StringHashMap<usize> = StringHashMap::new();
    let mut i: usize = 0;
    while i < span.len()
        invariant
            i <= span@.len(),
            names@.len() == last@.len(),
            forall|s: int|
                0 <= s < names@.len() ==> last_at(
                    span@.take(i as int),
                    (#[trigger] names@[s])@,
                    last@[s] as int,
                ),
            forall|s: int|
                0 <= s < names@.len() ==> index@.contains_key((#[trigger] names@[s])@)
                    && index@[names@[s]@] == s,
            forall|stream: Seq<char>| #[trigger]
                index@.contains_key(stream) ==> index@[stream] < names@.len()
                    && names@[index@[stream] as int]@ == stream,
            forall|stream: Seq<char>| #[trigger]
                checkpointed(span@.take(i as int), stream) ==> index@.contains_key(stream),
        decreases span.len() - i,
    {
        let ghost before = span@.take(i as int);
        let ghost after = span@.take(i + 1);
        let ghost had = names@;
        let ghost had_last = last@;
        assert(after =~= before.push(span@[i as int]));
        match &span[i] {
            WalRecord::Checkpoint { stream, .. } => {
                match index.get(stream.as_str()) {
                    Some(s) => {
                        let s: usize = *s;
                        last.set(s, i);
                    },
                    None => {
                        let s: usize = names.len();
                        index.insert(stream.clone(), s);
                        names.push(stream.clone());
                        last.push(i);
                    },
                }
                proof {
                    assert forall|s: int| 0 <= s < names@.len() implies last_at(
                        after,
                        (#[trigger] names@[s])@,
                        last@[s] as int,
                    ) by {
                        if names@[s]@ != stream@ {
                            assert(last_at(before, had[s]@, had_last[s] as int));
                            assert forall|k: int| last@[s] < k < after.len() implies !checkpoints(
                                #[trigger] after[k],
                                names@[s]@,
                            ) by {
                                if k < before.len() {
                                    assert(after[k] == before[k]);
                                }
                            }
                            assert(after[last@[s] as int] == before[last@[s] as int]);
                        } else {
                            assert(last@[s] == i);
                        }
                    }
                }
            },
            _ => {
                proof {
                    assert forall|s: int| 0 <= s < names@.len() implies last_at(
                        after,
                        (#[trigger] names@[s])@,
                        last@[s] as int,
                    ) by {
                        assert(last_at(before, had[s]@, had_last[s] as int));
                        assert forall|k: int| last@[s] < k < after.len() implies !checkpoints(
                            #[trigger] after[k],
                            names@[s]@,
                        ) by {
                            if k < before.len() {
                                assert(after[k] == before[k]);
                            }
                        }
                        assert(after[last@[s] as int] == before[last@[s] as int]);
                    }
                }
            },
        }
        proof {
            assert forall|stream: Seq<char>| #[trigger] checkpointed(
                after,
                stream,
            ) implies index@.contains_key(stream) by {
                let k = choose|k: int|
                    0 <= k < after.len() && checkpoints(#[trigger] after[k], stream);
                if k < before.len() {
                    assert(before[k] == after[k]);
                    assert(checkpointed(before, stream));
                }
            }
        }
        i = i + 1;
    }
    proof {
        assert(span@.take(i as int) =~= span@);
    }
    let streams = Streams { names, last };
    proof {
        assert forall|s: int, t: int| 0 <= s < t < streams.names@.len() implies (
        #[trigger] streams.names@[s])@ != (#[trigger] streams.names@[t])@ by {
            assert(index@[names@[s]@] == s && index@[names@[t]@] == t);
        }
        assert forall|s: int| 0 <= s < streams.names@.len() implies last_at(
            span@,
            (#[trigger] streams.names@[s])@,
            streams.last@[s] as int,
        ) by {
            assert(last_at(span@.take(i as int), names@[s]@, last@[s] as int));
        }
        assert forall|stream: Seq<char>| #[trigger] checkpointed(span@, stream) implies exists|s: int|
            0 <= s < streams.names@.len() && (#[trigger] streams.names@[s])@ == stream by {
            assert(streams.names@[index@[stream] as int]@ == stream);
        }
    }
    streams
}

/// The checkpointed streams in order: `order` names their positions.
spec fn in_order(streams: Streams, order: Seq<usize>, span: Seq<WalRecord>) -> bool {
    &&& streams.wf(span)
    &&& orders(streams.names@, order, 0, streams.names@.len() as int)
}

/// A checkpointed stream stands somewhere in the order, and those before it in the order of names
/// stand before it.
proof fn lemma_in_order(streams: Streams, order: Seq<usize>, span: Seq<WalRecord>, stream: Seq<char>) -> (o: int)
    requires
        in_order(streams, order, span),
        checkpointed(span, stream),
    ensures
        0 <= o < order.len(),
        order[o] < streams.names@.len(),
        streams.names@[order[o] as int]@ == stream,
        last_checkpoint(span, stream) == streams.last@[order[o] as int],
        last_at(span, stream, streams.last@[order[o] as int] as int),
{
    let s = choose|s: int| 0 <= s < streams.names@.len() && (#[trigger] streams.names@[s])@ == stream;
    assert(streams.names.len() == streams.names@.len());
    assert(order.contains(s as usize));
    let o = choose|o: int| 0 <= o < order.len() && order[o] == s as usize;
    lemma_last_checkpoint(span, stream);
    o
}

proof fn lemma_earlier_in_order(streams: Streams, order: Seq<usize>, span: Seq<WalRecord>, o: int, p: int)
    requires
        in_order(streams, order, span),
        0 <= o < order.len(),
        0 <= p < order.len(),
        name_before(streams.names@[order[o] as int]@, streams.names@[order[p] as int]@),
    ensures
        o < p,
{
    if p < o {
        assert(name_ordered(
            streams.names@[order[p] as int]@,
            streams.names@[order[o] as int]@,
        ));
    } else if o == p {
        lemma_bytes_before_irreflexive(encode_utf8(streams.names@[order[o] as int]@));
    }
}

proof fn lemma_later_in_order(streams: Streams, order: Seq<usize>, span: Seq<WalRecord>, o: int, p: int)
    requires
        in_order(streams, order, span),
        0 <= o < p < order.len(),
    ensures
        name_before(streams.names@[order[o] as int]@, streams.names@[order[p] as int]@),
{
    let a = order[o];
    let b = order[p];
    assert(a != b);
    assert(streams.names@[a as int]@ != streams.names@[b as int]@) by {
        if a < b {
            assert(streams.names@[a as int]@ != streams.names@[b as int]@);
        } else {
            assert(streams.names@[b as int]@ != streams.names@[a as int]@);
        }
    }
    lemma_name_ordered_strict(streams.names@[a as int]@, streams.names@[b as int]@);
}

/// The last checkpoint's position by the root table of its stream.
struct Joined {
    roots: Vec<String>,
    covered_to: StringHashMap<usize>,
}

impl Joined {
    /// Every checkpointed stream's last checkpoint is found by its root, and nothing else is.
    spec fn wf(&self, span: Seq<WalRecord>) -> bool {
        &&& forall|stream: Seq<char>| #[trigger]
            checkpointed(span, stream) ==> self.covered_to@.contains_key(stream_root(span, stream))
                && self.covered_to@[stream_root(span, stream)] == last_checkpoint(span, stream)
        &&& forall|root: Seq<char>| #[trigger]
            self.covered_to@.contains_key(root) ==> checkpointed_root(span, root)
        &&& forall|root: Seq<char>| #[trigger]
            checkpointed_root(span, root) ==> exists|k: int|
                0 <= k < self.roots@.len() && (#[trigger] self.roots@[k])@ == root
        &&& forall|k: int|
            0 <= k < self.roots@.len() ==> checkpointed_root(span, (#[trigger] self.roots@[k])@)
    }
}

/// Joins the checkpointed `streams` to their root tables, each root to one stream.
fn join_roots(span: &Vec<WalRecord>, streams: &Streams, Ghost(entries): Ghost<Seq<SchemaEntry>>) -> (joined: Result<
    Joined,
    CoverageFault,
>)
    requires
        streams.wf(span@),
    ensures
        match joined {
            Ok(join) => join.wf(span@) && !ambiguous(span@),
            Err(fault) => is_fault(span@, entries, fault) && ambiguous(span@),
        },
{
    let order: Vec<usize> = order_of(&streams.names);
    let mut roots: Vec<String> = Vec::new();
    let mut covered_to: StringHashMap<usize> = StringHashMap::new();
    let mut o: usize = 0;
    while o < order.len()
        invariant
            o <= order@.len(),
            in_order(*streams, order@, span@),
            forall|p: int|
                0 <= p < o ==> {
                    let stream = streams.names@[(#[trigger] order@[p]) as int]@;
                    &&& covered_to@.contains_key(stream_root(span@, stream))
                    &&& covered_to@[stream_root(span@, stream)] == last_checkpoint(span@, stream)
                    &&& !shadowed(span@, stream)
                },
            forall|root: Seq<char>| #[trigger]
                covered_to@.contains_key(root) ==> exists|p: int|
                    0 <= p < o && stream_root(
                        span@,
                        streams.names@[(#[trigger] order@[p]) as int]@,
                    ) == root,
            forall|root: Seq<char>| #[trigger]
                covered_to@.contains_key(root) ==> exists|k: int|
                    0 <= k < roots@.len() && (#[trigger] roots@[k])@ == root,
            forall|k: int|
                0 <= k < roots@.len() ==> covered_to@.contains_key((#[trigger] roots@[k])@),
        decreases order.len() - o,
    {
        let at: usize = streams.last[order[o]];
        let ghost stream = streams.names@[order@[o as int] as int]@;
        proof {
            assert(last_at(span@, stream, at as int));
            assert(checkpointed(span@, stream));
            lemma_last_checkpoint(span@, stream);
        }
        match &span[at] {
            WalRecord::Checkpoint { root, .. } => {
                assert(stream_root(span@, stream) == root@);
                if covered_to.contains_key(root.as_str()) {
                    proof {
                        let p = choose|p: int|
                            0 <= p < o && stream_root(
                                span@,
                                streams.names@[(#[trigger] order@[p]) as int]@,
                            ) == root@;
                        lemma_later_in_order(*streams, order@, span@, p, o as int);
                        let other = streams.names@[order@[p] as int]@;
                        assert(last_at(span@, other, streams.last@[order@[p] as int] as int));
                        assert(checkpointed(span@, other));
                        assert(shadowed(span@, stream));
                        assert forall|other: Seq<char>| name_before(other, stream) implies !#[trigger] shadowed(
                            span@,
                            other,
                        ) by {
                            if checkpointed(span@, other) {
                                let q = lemma_in_order(*streams, order@, span@, other);
                                lemma_earlier_in_order(*streams, order@, span@, q, o as int);
                            }
                        }
                    }
                    return Err(CoverageFault::Ambiguous { root: root.clone() });
                }
                let ghost had = covered_to@;
                let ghost had_roots = roots@;
                covered_to.insert(root.clone(), at);
                roots.push(root.clone());
                proof {
                    assert(roots@[had_roots.len() as int]@ == root@);
                    assert(!shadowed(span@, stream)) by {
                        if shadowed(span@, stream) {
                            let other = choose|other: Seq<char>| #[trigger]
                                checkpointed(span@, other) && name_before(other, stream)
                                    && stream_root(span@, other) == stream_root(span@, stream);
                            let q = lemma_in_order(*streams, order@, span@, other);
                            lemma_earlier_in_order(*streams, order@, span@, q, o as int);
                            assert(had.contains_key(stream_root(span@, other)));
                        }
                    }
                    assert forall|other: Seq<char>| #[trigger] covered_to@.contains_key(
                        other,
                    ) implies exists|k: int|
                        0 <= k < roots@.len() && (#[trigger] roots@[k])@ == other by {
                        if other != root@ {
                            let k = choose|k: int|
                                0 <= k < had_roots.len() && (#[trigger] had_roots[k])@ == other;
                            assert(roots@[k]@ == other);
                        }
                    }
                    assert forall|k: int| 0 <= k < roots@.len() implies covered_to@.contains_key(
                        (#[trigger] roots@[k])@,
                    ) by {
                        if k < had_roots.len() {
                            assert(roots@[k] == had_roots[k]);
                        }
                    }
                    assert forall|other: Seq<char>| #[trigger] covered_to@.contains_key(
                        other,
                    ) implies exists|p: int|
                        0 <= p < o + 1 && stream_root(
                            span@,
                            streams.names@[(#[trigger] order@[p]) as int]@,
                        ) == other by {
                        if other == root@ {
                            assert(stream_root(span@, streams.names@[order@[o as int] as int]@)
                                == other);
                        } else {
                            assert(had.contains_key(other));
                        }
                    }
                }
            },
            _ => {
                assert(false);
            },
        }
        o = o + 1;
    }
    let join = Joined { roots, covered_to };
    proof {
        assert forall|stream: Seq<char>| #[trigger] checkpointed(span@, stream) implies covered_to@.contains_key(
            stream_root(span@, stream),
        ) && covered_to@[stream_root(span@, stream)] == last_checkpoint(span@, stream) by {
            let p = lemma_in_order(*streams, order@, span@, stream);
            assert(order@[p] == order@[p]);
        }
        assert forall|root: Seq<char>| #[trigger] covered_to@.contains_key(root) implies checkpointed_root(
            span@,
            root,
        ) by {
            let p = choose|p: int|
                0 <= p < o && stream_root(
                    span@,
                    streams.names@[(#[trigger] order@[p]) as int]@,
                ) == root;
            let stream = streams.names@[order@[p] as int]@;
            assert(last_at(span@, stream, streams.last@[order@[p] as int] as int));
            assert(checkpointed(span@, stream));
        }
        assert forall|root: Seq<char>| #[trigger] checkpointed_root(span@, root) implies exists|k: int|
            0 <= k < join.roots@.len() && (#[trigger] join.roots@[k])@ == root by {
            let stream = choose|stream: Seq<char>| #[trigger]
                checkpointed(span@, stream) && stream_root(span@, stream) == root;
            assert(covered_to@.contains_key(root));
            let k = choose|k: int| 0 <= k < roots@.len() && (#[trigger] roots@[k])@ == root;
            assert(join.roots@[k]@ == root);
        }
        assert forall|k: int| 0 <= k < join.roots@.len() implies checkpointed_root(
            span@,
            (#[trigger] join.roots@[k])@,
        ) by {
            assert(covered_to@.contains_key(roots@[k]@));
        }
        assert(!ambiguous(span@)) by {
            if ambiguous(span@) {
                let stream = choose|stream: Seq<char>| #[trigger] shadowed(span@, stream);
                let p = lemma_in_order(*streams, order@, span@, stream);
                assert(order@[p] == order@[p]);
            }
        }
    }
    Ok(join)
}

/// How many parentless tables of `log` normalize onto each root.
fn count_roots(log: &SchemaLog) -> (counts: StringHashMap<usize>)
    requires
        log.wf(),
    ensures
        forall|root: Seq<char>| #[trigger]
            roots_onto(log@, root, log@.len() as int) == (if counts@.contains_key(root) {
                counts@[root] as nat
            } else {
                0nat
            }),
{
    let mut counts: StringHashMap<usize> = StringHashMap::new();
    let mut i: usize = 0;
    let n: usize = log.len();
    while i < n
        invariant
            i <= n,
            n == log@.len(),
            forall|root: Seq<char>| #[trigger]
                roots_onto(log@, root, i as int) == (if counts@.contains_key(root) {
                    counts@[root] as nat
                } else {
                    0nat
                }),
            forall|root: Seq<char>| #[trigger]
                counts@.contains_key(root) ==> counts@[root] <= i,
        decreases n - i,
    {
        let entry: &SchemaEntry = log.get(i);
        let ghost had = counts@;
        if entry.schema.parent.is_none() {
            let seen: usize = match counts.get(entry.schema.root.as_str()) {
                Some(seen) => *seen,
                None => 0,
            };
            counts.insert(entry.schema.root.clone(), seen + 1);
        }
        proof {
            assert forall|root: Seq<char>| #[trigger] roots_onto(log@, root, i + 1) == (
            if counts@.contains_key(root) {
                counts@[root] as nat
            } else {
                0nat
            }) by {
                assert(roots_onto(log@, root, i as int) == (if had.contains_key(root) {
                    had[root] as nat
                } else {
                    0nat
                }));
            }
        }
        i = i + 1;
    }
    counts
}

/// Refuses a span of whose checkpointed roots one is what several recorded root tables normalize
/// onto: nothing would tell the stream's own rows from a stranger's.
fn check_collisions(span: &Vec<WalRecord>, join: &Joined, log: &SchemaLog) -> (checked: Result<
    (),
    CoverageFault,
>)
    requires
        log.wf(),
        join.wf(span@),
        !ambiguous(span@),
    ensures
        match checked {
            Ok(_) => !colliding(span@, log@),
            Err(fault) => is_fault(span@, log@, fault) && colliding(span@, log@),
        },
{
    let counts: StringHashMap<usize> = count_roots(log);
    let order: Vec<usize> = order_of(&join.roots);
    let mut o: usize = 0;
    while o < order.len()
        invariant
            o <= order@.len(),
            log.wf(),
            join.wf(span@),
            !ambiguous(span@),
            orders(join.roots@, order@, 0, join.roots@.len() as int),
            forall|root: Seq<char>| #[trigger]
                roots_onto(log@, root, log@.len() as int) == (if counts@.contains_key(root) {
                    counts@[root] as nat
                } else {
                    0nat
                }),
            forall|p: int|
                0 <= p < o ==> roots_onto(
                    log@,
                    join.roots@[(#[trigger] order@[p]) as int]@,
                    log@.len() as int,
                ) <= 1,
        decreases order.len() - o,
    {
        let root: &String = &join.roots[order[o]];
        let count: usize = match counts.get(root.as_str()) {
            Some(count) => *count,
            None => 0,
        };
        assert(roots_onto(log@, root@, log@.len() as int) == count);
        if count > 1 {
            proof {
                assert(checkpointed_root(span@, root@));
                assert forall|other: Seq<char>|
                    name_before(other, root@) && #[trigger] checkpointed_root(
                        span@,
                        other,
                    ) implies roots_onto(log@, other, log@.len() as int) <= 1 by {
                    let p = lemma_root_in_order(*join, order@, span@, other);
                    if p > o {
                        assert(name_ordered(
                            join.roots@[order@[o as int] as int]@,
                            join.roots@[order@[p] as int]@,
                        ));
                    } else if p == o {
                        lemma_bytes_before_irreflexive(encode_utf8(root@));
                    }
                }
            }
            return Err(CoverageFault::Colliding { count, root: root.clone() });
        }
        o = o + 1;
    }
    proof {
        if colliding(span@, log@) {
            let root = choose|root: Seq<char>| #[trigger]
                checkpointed_root(span@, root) && roots_onto(log@, root, log@.len() as int) > 1;
            let p = lemma_root_in_order(*join, order@, span@, root);
            assert(order@[p] == order@[p]);
        }
    }
    Ok(())
}

proof fn lemma_root_in_order(join: Joined, order: Seq<usize>, span: Seq<WalRecord>, root: Seq<char>) -> (p: int)
    requires
        join.wf(span),
        orders(join.roots@, order, 0, join.roots@.len() as int),
        checkpointed_root(span, root),
    ensures
        0 <= p < order.len(),
        order[p] < join.roots@.len(),
        join.roots@[order[p] as int]@ == root,
{
    let k = choose|k: int| 0 <= k < join.roots@.len() && (#[trigger] join.roots@[k])@ == root;
    assert(join.roots.len() == join.roots@.len());
    assert(order.contains(k as usize));
    let p = choose|p: int| 0 <= p < order.len() && order[p] == k as usize;
    p
}

/// Which records of a span a resumed run keeps, and which tables its segments hold.
#[derive(Debug)]
pub struct Coverage {
    /// For each record of the span, whether it is kept.
    pub keep: Vec<bool>,
    /// The positions of the tables that kept segments hold, among the recorded tables.
    pub written: Vec<usize>,
}

/// The table a kept segment at `i` holds, as a position among the recorded tables.
pub open spec fn holds_table(
    span: Seq<WalRecord>,
    entries: Seq<SchemaEntry>,
    i: int,
    table: int,
) -> bool {
    match span[i] {
        WalRecord::Segment { table: of, .. } => is_kept(span, entries, i) && table == position(
            entries,
            of@,
        ),
        _ => false,
    }
}

impl Coverage {
    /// Whether this is the coverage of `span`.
    pub open spec fn covers(&self, span: Seq<WalRecord>, entries: Seq<SchemaEntry>) -> bool {
        &&& self.keep@.len() == span.len()
        &&& forall|i: int|
            0 <= i < span.len() ==> #[trigger] self.keep@[i] == is_kept(span, entries, i)
        &&& forall|w: int|
            0 <= w < self.written@.len() ==> (#[trigger] self.written@[w]) < entries.len()
                && is_rooted(entries, self.written@[w] as int) && exists|i: int|
                0 <= i < span.len() && #[trigger] holds_table(
                    span,
                    entries,
                    i,
                    self.written@[w] as int,
                )
        &&& forall|i: int, table: int|
            0 <= i < span.len() && #[trigger] holds_table(span, entries, i, table) ==> exists|w: int|
                0 <= w < self.written@.len() && #[trigger] self.written@[w] == table
    }
}

/// Whether the segments of `span` can all be attributed to streams.
pub open spec fn attribution_holds(span: Seq<WalRecord>, entries: Seq<SchemaEntry>) -> bool {
    &&& !ambiguous(span)
    &&& !colliding(span, entries)
    &&& forall|i: int| 0 <= i < span.len() ==> attributable(entries, #[trigger] span[i])
}

/// Whether `span` holds any checkpoint.
pub open spec fn has_checkpoint(span: Seq<WalRecord>) -> bool {
    exists|i: int| 0 <= i < span.len() && (#[trigger] span[i]) is Checkpoint
}

/// What the ancestries of the table `table` in `log` say of the segment holding it.
fn root_of(log: &SchemaLog, ancestries: &Vec<Option<Ancestry>>, table: &String) -> (root: Result<
    (usize, usize),
    CoverageFault,
>)
    requires
        log.wf(),
        ancestries@.len() == log@.len(),
        forall|i: int|
            0 <= i < ancestries@.len() ==> (#[trigger] ancestries@[i]) is Some && is_ancestry(
                log@,
                i,
                ancestries@[i]->0,
            ),
    ensures
        match root {
            Ok((at, r)) => describes(log@, table@) && at == position(log@, table@) && at < log@.len()
                && r < log@.len() && ends_at(log@, at as int, r as int),
            Err(CoverageFault::NoSchema { table: missing }) => if describes(log@, table@) {
                ends_missing(log@, position(log@, table@), missing@)
            } else {
                table@ == missing@
            },
            Err(CoverageFault::Endless { table: of }) => of@ == table@ && describes(log@, table@)
                && endless(log@, position(log@, table@)),
            Err(_) => false,
        },
{
    match log.find(table.as_str()) {
        None => Err(CoverageFault::NoSchema { table: table.clone() }),
        Some(at) => match &ancestries[at] {
            Some(Ancestry::Root(r)) => Ok((at, *r)),
            Some(Ancestry::Missing(missing)) => Err(
                CoverageFault::NoSchema { table: missing.clone() },
            ),
            Some(Ancestry::Endless) => Err(CoverageFault::Endless { table: table.clone() }),
            None => {
                assert(ancestries@[at as int] is Some);
                Err(CoverageFault::Endless { table: table.clone() })
            },
        },
    }
}

/// Keeps the covered part of one uncommitted span: every record but a segment, and exactly the
/// segments a checkpoint of their own stream follows. `None` for a span with no checkpoint, which
/// has nothing to replay.
///
/// A segment resolves to its root table along recorded parents, and the root to its stream by the
/// root its checkpoints name. Segments of a stream that never checkpointed are dropped:
/// re-extraction delivers their rows again.
pub fn filter_covered(span: &Vec<WalRecord>, log: &SchemaLog) -> (covered: Result<
    Option<Coverage>,
    CoverageFault,
>)
    requires
        log.wf(),
    ensures
        match covered {
            Ok(None) => !has_checkpoint(span@),
            Ok(Some(coverage)) => has_checkpoint(span@) && attribution_holds(span@, log@)
                && coverage.covers(span@, log@),
            Err(fault) => has_checkpoint(span@) && is_fault(span@, log@, fault)
                && !attribution_holds(span@, log@),
        },
{
    let streams: Streams = streams_of(span);
    if streams.names.len() == 0 {
        proof {
            if has_checkpoint(span@) {
                let i = choose|i: int| 0 <= i < span@.len() && (#[trigger] span@[i]) is Checkpoint;
                let stream = span@[i]->stream@;
                assert(checkpoints(span@[i], stream));
                assert(checkpointed(span@, stream));
            }
        }
        return Ok(None);
    }
    proof {
        assert(last_at(span@, streams.names@[0]@, streams.last@[0] as int));
        assert(span@[streams.last@[0] as int] is Checkpoint);
    }
    let join: Joined = match join_roots(span, &streams, Ghost(log@)) {
        Ok(join) => join,
        Err(fault) => {
            return Err(fault);
        },
    };
    match check_collisions(span, &join, log) {
        Ok(_) => {},
        Err(fault) => {
            return Err(fault);
        },
    }
    let links: Vec<Link> = log.links();
    let ancestries: Vec<Option<Ancestry>> = log.ancestries(&links);
    let mut keep: Vec<bool> = Vec::new();
    let mut written: Vec<usize> = Vec::new();
    let mut i: usize = 0;
    let ghost entries = log@;
    while i < span.len()
        invariant
            i <= span@.len(),
            keep@.len() == i,
            log.wf(),
            entries == log@,
            has_checkpoint(span@),
            join.wf(span@),
            !ambiguous(span@),
            !colliding(span@, entries),
            ancestries@.len() == entries.len(),
            forall|k: int|
                0 <= k < ancestries@.len() ==> (#[trigger] ancestries@[k]) is Some && is_ancestry(
                    entries,
                    k,
                    ancestries@[k]->0,
                ),
            forall|k: int| 0 <= k < i ==> attributable(entries, #[trigger] span@[k]),
            forall|k: int| 0 <= k < i ==> #[trigger] keep@[k] == is_kept(span@, entries, k),
            forall|w: int|
                0 <= w < written@.len() ==> (#[trigger] written@[w]) < entries.len() && is_rooted(
                    entries,
                    written@[w] as int,
                ) && exists|k: int|
                    0 <= k < span@.len() && #[trigger] holds_table(
                        span@,
                        entries,
                        k,
                        written@[w] as int,
                    ),
            forall|k: int, table: int|
                0 <= k < i && #[trigger] holds_table(span@, entries, k, table) ==> exists|w: int|
                    0 <= w < written@.len() && #[trigger] written@[w] == table,
        decreases span.len() - i,
    {
        let ghost had = written@;
        match &span[i] {
            WalRecord::Segment { table, .. } => {
                let (at, r): (usize, usize) = match root_of(log, &ancestries, table) {
                    Ok(found) => found,
                    Err(fault) => {
                        proof {
                            lemma_unrooted(span@, entries, i as int, fault);
                        }
                        return Err(fault);
                    },
                };
                let root: &SchemaEntry = log.get(r);
                let kept: bool = match join.covered_to.get(root.schema.table.as_str()) {
                    Some(last) => i < *last,
                    None => false,
                };
                proof {
                    lemma_kept(span@, entries, i as int, join, at as int, r as int, kept);
                }
                keep.push(kept);
                if kept {
                    written.push(at);
                    assert(holds_table(span@, entries, i as int, at as int));
                    assert(is_rooted(entries, at as int));
                }
            },
            _ => {
                keep.push(true);
            },
        }
        proof {
            assert forall|k: int, table: int|
                0 <= k < i + 1 && #[trigger] holds_table(
                    span@,
                    entries,
                    k,
                    table,
                ) implies exists|w: int|
                0 <= w < written@.len() && #[trigger] written@[w] == table by {
                if k < i {
                    let w = choose|w: int| 0 <= w < had.len() && #[trigger] had[w] == table;
                    assert(written@[w] == table);
                } else {
                    assert(written@[had.len() as int] == table);
                }
            }
            assert forall|w: int| 0 <= w < written@.len() implies (#[trigger] written@[w])
                < entries.len() && is_rooted(entries, written@[w] as int) && exists|k: int|
                0 <= k < span@.len() && #[trigger] holds_table(
                    span@,
                    entries,
                    k,
                    written@[w] as int,
                ) by {
                if w < had.len() {
                    assert(written@[w] == had[w]);
                }
            }
        }
        i = i + 1;
    }
    let coverage = Coverage { keep, written };
    proof {
        assert forall|i: int| 0 <= i < span@.len() implies #[trigger] coverage.keep@[i] == is_kept(
            span@,
            entries,
            i,
        ) by {}
        assert forall|w: int| 0 <= w < coverage.written@.len() implies (
        #[trigger] coverage.written@[w]) < entries.len() && is_rooted(
            entries,
            coverage.written@[w] as int,
        ) && exists|k: int|
            0 <= k < span@.len() && #[trigger] holds_table(
                span@,
                entries,
                k,
                coverage.written@[w] as int,
            ) by {
            assert(written@[w] == coverage.written@[w]);
        }
        assert forall|k: int, table: int|
            0 <= k < span@.len() && #[trigger] holds_table(
                span@,
                entries,
                k,
                table,
            ) implies exists|w: int|
            0 <= w < coverage.written@.len() && #[trigger] coverage.written@[w] == table by {
            let w = choose|w: int| 0 <= w < written@.len() && #[trigger] written@[w] == table;
            assert(coverage.written@[w] == table);
        }
        assert(coverage.covers(span@, entries));
        assert(attribution_holds(span@, entries));
    }
    Ok(Some(coverage))
}

/// Whether the segment at `i`, the first whose table leads to no root, is why `fault` is found.
spec fn is_unrooted(
    span: Seq<WalRecord>,
    entries: Seq<SchemaEntry>,
    i: int,
    fault: CoverageFault,
) -> bool {
    &&& 0 <= i < span.len()
    &&& forall|k: int| 0 <= k < i ==> attributable(entries, #[trigger] span[k])
    &&& match span[i] {
        WalRecord::Segment { table, .. } => match fault {
            CoverageFault::NoSchema { table: missing } => if describes(entries, table@) {
                ends_missing(entries, position(entries, table@), missing@)
            } else {
                table@ == missing@
            },
            CoverageFault::Endless { table: of } => of@ == table@ && describes(entries, table@)
                && endless(entries, position(entries, table@)),
            _ => false,
        },
        _ => false,
    }
}

proof fn lemma_unrooted(
    span: Seq<WalRecord>,
    entries: Seq<SchemaEntry>,
    i: int,
    fault: CoverageFault,
)
    requires
        !ambiguous(span),
        !colliding(span, entries),
        is_unrooted(span, entries, i, fault),
    ensures
        is_fault(span, entries, fault),
        !attributable(entries, span[i]),
        !attribution_holds(span, entries),
{
    let table = span[i]->Segment_table;
    if describes(entries, table@) {
        let at = position(entries, table@);
        if is_rooted(entries, at) {
            let r = choose|r: int| 0 <= r < entries.len() && #[trigger] ends_at(entries, at, r);
            match fault {
                CoverageFault::NoSchema { table: missing } => {
                    lemma_root_or_missing(entries, at, r, missing@);
                },
                CoverageFault::Endless { .. } => {
                    lemma_root_or_endless(entries, at, r);
                },
                _ => {},
            }
        }
    }
    assert(!attributable(entries, span[i]));
}

/// The segment a fault of attribution comes from.
proof fn lemma_unrooted_at(
    span: Seq<WalRecord>,
    entries: Seq<SchemaEntry>,
    fault: CoverageFault,
) -> (i: int)
    requires
        is_fault(span, entries, fault),
        fault is NoSchema || fault is Endless,
    ensures
        is_unrooted(span, entries, i, fault),
        !attributable(entries, span[i]),
{
    let i = match fault {
        CoverageFault::NoSchema { table } => choose|i: int|
            {
                &&& 0 <= i < span.len()
                &&& (forall|k: int| 0 <= k < i ==> attributable(entries, #[trigger] span[k]))
                &&& match #[trigger] span[i] {
                    WalRecord::Segment { table: of, .. } => if describes(entries, of@) {
                        ends_missing(entries, position(entries, of@), table@)
                    } else {
                        of@ == table@
                    },
                    _ => false,
                }
            },
        CoverageFault::Endless { table } => choose|i: int|
            {
                &&& 0 <= i < span.len()
                &&& (forall|k: int| 0 <= k < i ==> attributable(entries, #[trigger] span[k]))
                &&& match #[trigger] span[i] {
                    WalRecord::Segment { table: of, .. } => of@ == table@ && describes(
                        entries,
                        of@,
                    ) && endless(entries, position(entries, of@)),
                    _ => false,
                }
            },
        _ => 0,
    };
    lemma_unrooted(span, entries, i, fault);
    i
}

/// A span whose segments cannot be attributed has one fault: two that are found of it are of one
/// kind, and read the same.
pub proof fn law_a_span_has_one_fault(
    span: Seq<WalRecord>,
    entries: Seq<SchemaEntry>,
    fault: CoverageFault,
    other: CoverageFault,
)
    requires
        is_fault(span, entries, fault),
        is_fault(span, entries, other),
    ensures
        fault.text() == other.text(),
        fault is Ambiguous <==> other is Ambiguous,
        fault is Colliding <==> other is Colliding,
        fault is NoSchema <==> other is NoSchema,
        fault is Endless <==> other is Endless,
{
    match (fault, other) {
        (CoverageFault::Ambiguous { root }, CoverageFault::Ambiguous { root: other_root }) => {
            let a = choose|stream: Seq<char>|
                {
                    &&& #[trigger] shadowed(span, stream)
                    &&& stream_root(span, stream) == root@
                    &&& forall|other: Seq<char>|
                        name_before(other, stream) ==> !#[trigger] shadowed(span, other)
                };
            let b = choose|stream: Seq<char>|
                {
                    &&& #[trigger] shadowed(span, stream)
                    &&& stream_root(span, stream) == other_root@
                    &&& forall|other: Seq<char>|
                        name_before(other, stream) ==> !#[trigger] shadowed(span, other)
                };
            if a != b {
                lemma_name_before_total(a, b);
            }
        },
        (CoverageFault::Colliding { root, .. }, CoverageFault::Colliding { root: other_root, .. }) => {
            if root@ != other_root@ {
                lemma_name_before_total(root@, other_root@);
            }
        },
        (
            CoverageFault::NoSchema { .. } | CoverageFault::Endless { .. },
            CoverageFault::NoSchema { .. } | CoverageFault::Endless { .. },
        ) => {
            let a = lemma_unrooted_at(span, entries, fault);
            let b = lemma_unrooted_at(span, entries, other);
            assert(a == b);
            let table = span[a]->Segment_table;
            let at = position(entries, table@);
            if let CoverageFault::NoSchema { table: missing } = fault {
                if describes(entries, table@) {
                    lemma_one_missing(
                        entries,
                        at,
                        missing@,
                        match other {
                            CoverageFault::NoSchema { table } => table@,
                            _ => missing@,
                        },
                    );
                }
            }
            if let CoverageFault::NoSchema { table: missing } = other {
                if describes(entries, table@) {
                    lemma_one_missing(entries, at, missing@, missing@);
                }
            }
        },
        _ => {},
    }
}

proof fn lemma_kept(
    span: Seq<WalRecord>,
    entries: Seq<SchemaEntry>,
    i: int,
    join: Joined,
    at: int,
    r: int,
    kept: bool,
)
    requires
        0 <= i < span.len(),
        join.wf(span),
        span[i] is Segment,
        at == position(entries, span[i]->Segment_table@),
        0 <= r < entries.len(),
        ends_at(entries, at, r),
        kept == (join.covered_to@.contains_key(table_of(entries[r])) && i < join.covered_to@[table_of(
            entries[r],
        )]),
    ensures
        kept == is_kept(span, entries, i),
{
    if kept {
        assert(checkpointed_root(span, table_of(entries[r])));
        let stream = choose|stream: Seq<char>| #[trigger]
            checkpointed(span, stream) && stream_root(span, stream) == table_of(entries[r]);
        assert(checkpointed(span, stream) && ends_at(entries, at, r));
    }
    if is_kept(span, entries, i) {
        let (stream, s) = choose|stream: Seq<char>, s: int| #[trigger]
            checkpointed(span, stream) && #[trigger] ends_at(entries, at, s) && 0 <= s
                < entries.len() && table_of(entries[s]) == stream_root(span, stream) && i
                < last_checkpoint(span, stream);
        lemma_one_root(entries, at, r, s);
    }
}

/// Whether the segment at `i` belongs to `stream`: its table's chain ends at the stream's root.
pub open spec fn belongs_to(
    span: Seq<WalRecord>,
    entries: Seq<SchemaEntry>,
    i: int,
    stream: Seq<char>,
) -> bool {
    exists|r: int|
        0 <= r < entries.len() && #[trigger] ends_at(
            entries,
            position(entries, span[i]->Segment_table@),
            r,
        ) && table_of(entries[r]) == stream_root(span, stream)
}

/// A segment is kept exactly when a checkpoint of a stream it belongs to follows it.
pub proof fn law_kept_segments_are_covered(
    span: Seq<WalRecord>,
    entries: Seq<SchemaEntry>,
    i: int,
)
    requires
        0 <= i < span.len(),
        span[i] is Segment,
    ensures
        is_kept(span, entries, i) <==> exists|stream: Seq<char>, at: int|
            i < at < span.len() && #[trigger] checkpoints(span[at], stream) && #[trigger] belongs_to(
                span,
                entries,
                i,
                stream,
            ),
{
    let table = position(entries, span[i]->Segment_table@);
    if is_kept(span, entries, i) {
        let (stream, r) = choose|stream: Seq<char>, r: int| #[trigger]
            checkpointed(span, stream) && #[trigger] ends_at(entries, table, r) && 0 <= r
                < entries.len() && table_of(entries[r]) == stream_root(span, stream) && i
                < last_checkpoint(span, stream);
        lemma_last_checkpoint(span, stream);
        assert(belongs_to(span, entries, i, stream));
        assert(checkpoints(span[last_checkpoint(span, stream)], stream));
    }
    if exists|stream: Seq<char>, at: int|
        i < at < span.len() && #[trigger] checkpoints(span[at], stream) && #[trigger] belongs_to(
            span,
            entries,
            i,
            stream,
        ) {
        let (stream, at) = choose|stream: Seq<char>, at: int|
            i < at < span.len() && #[trigger] checkpoints(span[at], stream) && #[trigger] belongs_to(
                span,
                entries,
                i,
                stream,
            );
        assert(checkpointed(span, stream));
        lemma_last_checkpoint(span, stream);
        assert(last_checkpoint(span, stream) >= at);
        let r = choose|r: int|
            0 <= r < entries.len() && #[trigger] ends_at(entries, table, r) && table_of(entries[r])
                == stream_root(span, stream);
        assert(checkpointed(span, stream) && ends_at(entries, table, r));
    }
}

} // verus!
