//! Replaying one uncommitted span into an open session and committing it under the original run's
//! identity: first every segment is decoded and counted, then the tables are ensured, then the
//! span is streamed in order. Any damage abandons the replay for extracting the source again.

use crate::text::{dec, push_decimal};
use crate::wal::record::{name_fault, verify_segment_file, NameFault, WalRecord};
use crate::wal::scan::RecoverySpan;
use vstd::prelude::*;
use vstd::string::*;

verus! {

/// A row count that does not fit: this many rows and so many more.
#[derive(Debug)]
pub struct RowOverflow {
    pub sum: u64,
    pub rows: u64,
}

impl RowOverflow {
    /// The overflow in words.
    pub open spec fn text(self) -> Seq<char> {
        "the replayed row count overflows at "@ + dec(self.sum as nat) + " + "@ + dec(
            self.rows as nat,
        ) + " rows — no writer records that many"@
    }

    /// The overflow in words.
    pub fn message(&self) -> (message: String)
        ensures
            message@ == self.text(),
    {
        let mut message = String::new();
        message.append("the replayed row count overflows at ");
        push_decimal(&mut message, self.sum as u128);
        message.append(" + ");
        push_decimal(&mut message, self.rows as u128);
        message.append(" rows — no writer records that many");
        proof {
            assert(message@ =~= self.text());
        }
        message
    }
}

/// `rows` more than `sum`, or that no such number is counted.
pub fn checked_rows_sum(sum: u64, rows: u64) -> (summed: Result<u64, RowOverflow>)
    ensures
        match summed {
            Ok(total) => total == sum + rows,
            Err(overflow) => sum + rows > u64::MAX && overflow.sum == sum && overflow.rows == rows,
        },
{
    match sum.checked_add(rows) {
        Some(total) => Ok(total),
        None => Err(RowOverflow { sum, rows }),
    }
}

/// Why a replay was given up.
#[derive(Debug)]
pub enum ReplayFault {
    /// A segment's name did not come from the run's writer.
    Name(NameFault),
    /// A segment could not be decoded, for this reason.
    Unreadable { file: String, reason: String },
    /// A segment holds another number of rows than its line records.
    Miscounted { file: String, recorded: u64, decoded: u64 },
    /// A segment's batches hold more rows than are counted.
    Overflow { file: String, overflow: RowOverflow },
    /// What happened is not what was asked for.
    OutOfTurn,
}

/// A stream's cursor.
#[derive(Debug)]
pub struct StreamCursor {
    pub stream: String,
    pub cursor: String,
}

/// The cursors of streams, one for each.
#[derive(Debug)]
pub struct Cursors {
    entries: Vec<StreamCursor>,
}

/// Whether `entries` has a cursor of `stream`.
pub open spec fn has_stream(entries: Seq<StreamCursor>, stream: Seq<char>) -> bool {
    exists|i: int| 0 <= i < entries.len() && (#[trigger] entries[i]).stream@ == stream
}

/// Whether `entries` are the cursors that `cursors` maps streams to, each stream once.
pub open spec fn are_cursors(
    entries: Seq<StreamCursor>,
    cursors: Map<Seq<char>, Seq<char>>,
) -> bool {
    &&& forall|i: int, j: int|
        0 <= i < j < entries.len() ==> (#[trigger] entries[i]).stream@ != (
        #[trigger] entries[j]).stream@
    &&& forall|i: int|
        0 <= i < entries.len() ==> cursors.dom().contains((#[trigger] entries[i]).stream@)
            && cursors[entries[i].stream@] == entries[i].cursor@
    &&& forall|stream: Seq<char>| #[trigger]
        cursors.dom().contains(stream) ==> has_stream(entries, stream)
}

impl Cursors {
    /// The cursor of each stream.
    pub closed spec fn view(&self) -> Map<Seq<char>, Seq<char>> {
        Map::new(
            |stream: Seq<char>| has_stream(self.entries@, stream),
            |stream: Seq<char>|
                {
                    let i = choose|i: int|
                        0 <= i < self.entries@.len() && (#[trigger] self.entries@[i]).stream@
                            == stream;
                    self.entries@[i].cursor@
                },
        )
    }

    /// No stream has two cursors.
    pub closed spec fn wf(&self) -> bool {
        forall|i: int, j: int|
            0 <= i < j < self.entries@.len() ==> (#[trigger] self.entries@[i]).stream@ != (
            #[trigger] self.entries@[j]).stream@
    }

    /// No cursors.
    pub fn new() -> (cursors: Cursors)
        ensures
            cursors.wf(),
            cursors@ == Map::<Seq<char>, Seq<char>>::empty(),
    {
        let cursors = Cursors { entries: Vec::new() };
        assert(cursors@ =~= Map::<Seq<char>, Seq<char>>::empty());
        cursors
    }

    proof fn lemma_entries(&self)
        requires
            self.wf(),
        ensures
            are_cursors(self.entries@, self@),
    {
        assert forall|i: int| 0 <= i < self.entries@.len() implies self@.dom().contains(
            (#[trigger] self.entries@[i]).stream@,
        ) && self@[self.entries@[i].stream@] == self.entries@[i].cursor@ by {
            assert(has_stream(self.entries@, self.entries@[i].stream@));
        }
    }

    /// Notes that `stream` is at `cursor`, whatever it was at before.
    pub fn note(&mut self, stream: &String, cursor: &String)
        requires
            old(self).wf(),
        ensures
            final(self).wf(),
            final(self)@ == old(self)@.insert(stream@, cursor@),
    {
        let ghost before = *self;
        proof {
            before.lemma_entries();
        }
        let mut at: usize = 0;
        while at < self.entries.len()
            invariant
                at <= self.entries@.len(),
                *self == before,
                before == *old(self),
                before.wf(),
                are_cursors(before.entries@, before@),
                forall|i: int| 0 <= i < at ==> (#[trigger] self.entries@[i]).stream@ != stream@,
            decreases self.entries@.len() - at,
        {
            if self.entries[at].stream == *stream {
                self.entries.set(
                    at,
                    StreamCursor { stream: stream.clone(), cursor: cursor.clone() },
                );
                proof {
                    self.lemma_entries();
                    lemma_same_cursors(
                        self.entries@,
                        self@,
                        before.entries@,
                        before@,
                        at as int,
                        stream@,
                        cursor@,
                    );
                }
                return;
            }
            at = at + 1;
        }
        self.entries.push(StreamCursor { stream: stream.clone(), cursor: cursor.clone() });
        proof {
            self.lemma_entries();
            lemma_same_cursors(
                self.entries@,
                self@,
                before.entries@,
                before@,
                before.entries@.len() as int,
                stream@,
                cursor@,
            );
        }
    }

    /// The cursors, each stream's once.
    pub fn entries(&self) -> (entries: &Vec<StreamCursor>)
        requires
            self.wf(),
        ensures
            are_cursors(entries@, self@),
    {
        proof {
            self.lemma_entries();
        }
        &self.entries
    }

    /// A copy of the cursors.
    fn copied(&self) -> (copy: Cursors)
        requires
            self.wf(),
        ensures
            copy.wf(),
            copy@ == self@,
    {
        let mut copy = Cursors::new();
        let mut at: usize = 0;
        while at < self.entries.len()
            invariant
                at <= self.entries@.len(),
                self.wf(),
                copy.wf(),
                copy@ == noted_entries(self.entries@.take(at as int)),
            decreases self.entries@.len() - at,
        {
            copy.note(&self.entries[at].stream, &self.entries[at].cursor);
            at = at + 1;
            proof {
                assert(self.entries@.take(at as int).drop_last() =~= self.entries@.take(at - 1));
            }
        }
        proof {
            assert(self.entries@.take(at as int) =~= self.entries@);
            self.lemma_entries();
            lemma_noted_entries(self.entries@);
            assert(copy@ =~= self@);
        }
        copy
    }
}

/// The cursors noted one after another.
spec fn noted_entries(entries: Seq<StreamCursor>) -> Map<Seq<char>, Seq<char>>
    decreases entries.len(),
{
    if entries.len() == 0 {
        Map::empty()
    } else {
        noted_entries(entries.drop_last()).insert(entries.last().stream@, entries.last().cursor@)
    }
}

proof fn lemma_noted_entries(entries: Seq<StreamCursor>)
    requires
        forall|i: int, j: int|
            0 <= i < j < entries.len() ==> (#[trigger] entries[i]).stream@ != (
            #[trigger] entries[j]).stream@,
    ensures
        are_cursors(entries, noted_entries(entries)),
    decreases entries.len(),
{
    if entries.len() > 0 {
        let front = entries.drop_last();
        lemma_noted_entries(front);
        let noted = noted_entries(entries);
        assert forall|i: int| 0 <= i < entries.len() implies noted.dom().contains(
            (#[trigger] entries[i]).stream@,
        ) && noted[entries[i].stream@] == entries[i].cursor@ by {
            if i < front.len() {
                assert(front[i] == entries[i]);
            }
        }
        assert forall|stream: Seq<char>| #[trigger] noted.dom().contains(stream) implies has_stream(
            entries,
            stream,
        ) by {
            if stream == entries.last().stream@ {
                assert(entries[entries.len() - 1].stream@ == stream);
            } else {
                let i = choose|i: int|
                    0 <= i < front.len() && (#[trigger] front[i]).stream@ == stream;
                assert(entries[i].stream@ == stream);
            }
        }
    }
}

/// Cursors that differ from others in the one at `at`, or have it besides, are those with its
/// stream at its cursor.
proof fn lemma_same_cursors(
    entries: Seq<StreamCursor>,
    cursors: Map<Seq<char>, Seq<char>>,
    before: Seq<StreamCursor>,
    known: Map<Seq<char>, Seq<char>>,
    at: int,
    stream: Seq<char>,
    cursor: Seq<char>,
)
    requires
        are_cursors(entries, cursors),
        are_cursors(before, known),
        0 <= at < entries.len(),
        at <= before.len(),
        entries.len() == if at == before.len() {
            before.len() + 1
        } else {
            before.len()
        },
        entries[at].stream@ == stream,
        entries[at].cursor@ == cursor,
        at < before.len() ==> before[at].stream@ == stream,
        forall|i: int| 0 <= i < before.len() && i != at ==> #[trigger] entries[i] == before[i],
    ensures
        cursors == known.insert(stream, cursor),
{
    let wanted = known.insert(stream, cursor);
    assert forall|other: Seq<char>| cursors.dom().contains(other) == wanted.dom().contains(
        other,
    ) by {
        if cursors.dom().contains(other) && other != stream {
            let i = choose|i: int|
                0 <= i < entries.len() && (#[trigger] entries[i]).stream@ == other;
            assert(before[i].stream@ == other);
        }
        if known.dom().contains(other) && other != stream {
            let i = choose|i: int| 0 <= i < before.len() && (#[trigger] before[i]).stream@ == other;
            assert(entries[i].stream@ == other);
        }
    }
    assert forall|other: Seq<char>| cursors.dom().contains(other) implies cursors[other]
        == wanted[other] by {
        let i = choose|i: int| 0 <= i < entries.len() && (#[trigger] entries[i]).stream@ == other;
        if i != at {
            assert(entries[i] == before[i]);
            assert(entries[i].stream@ != entries[at].stream@);
        }
    }
    assert(cursors =~= wanted);
}

/// The identity of a commit: its load, and its sequence among the load's.
#[derive(Debug)]
pub struct LastCommit {
    pub load_id: String,
    pub commit_seq: u64,
}

/// What a replay commits: the identity of the run the span is of, and the state that goes with it.
#[derive(Debug)]
pub struct Commit {
    pub load_id: String,
    pub commit_seq: u64,
    /// The cursors the destination holds the rows up to.
    pub cursors: Cursors,
    /// The last commit the state is of: this one.
    pub last_commit: LastCommit,
}

/// What a replay is at, and so what is to be done next.
#[derive(Debug)]
pub enum Stage {
    /// Decode the segment at this record and count its rows.
    Counting { at: usize },
    /// Ensure the table of the schema at this position.
    Ensuring { at: usize },
    /// Apply the schema, or take up the cursor, at this record.
    Applying { at: usize },
    /// Open the segment at this record again.
    Opening { at: usize },
    /// Decode its next batch, this many rows of it being written.
    Reading { at: usize, rows: u64 },
    /// Write the batch decoded last, which brings its rows to so many.
    Writing { at: usize, rows: u64 },
    /// Commit under the span's load and sequence.
    Committing,
    /// All is committed.
    Finished,
    /// Nothing of the span is committed.
    Abandoned(ReplayFault),
}

/// What came of what a stage asks for.
#[derive(Debug)]
pub enum Event {
    /// It is done.
    Done,
    /// The segment decodes, with this many rows.
    Counted { rows: u64 },
    /// A batch of this many rows was decoded.
    Batch { rows: u64 },
    /// The segment has no further batch.
    End,
    /// The segment could not be decoded.
    Failed { reason: String },
}

/// A span as replay reads it: its run, what it replays, and how many schemas it ensures first.
pub ghost struct Script {
    pub load_id: String,
    pub records: Seq<WalRecord>,
    pub schemas: int,
}

/// `span`, as replay reads it.
pub open spec fn script_of(span: RecoverySpan) -> Script {
    Script {
        load_id: span.load_id,
        records: span.records@,
        schemas: span.schemas@.len() as int,
    }
}

/// The first segment from `i` on to be counted, or what follows when there is none.
pub open spec fn count_from(script: Script, i: int) -> Stage
    decreases script.records.len() - i,
{
    if i >= script.records.len() {
        ensure_from(script, 0)
    } else {
        match script.records[i] {
            WalRecord::Segment { file, .. } => match name_fault(script.load_id, file) {
                Some(fault) => Stage::Abandoned(ReplayFault::Name(fault)),
                None => Stage::Counting { at: i as usize },
            },
            _ => count_from(script, i + 1),
        }
    }
}

/// The schema at `i` to be ensured, or what follows when there is none.
pub open spec fn ensure_from(script: Script, i: int) -> Stage {
    if i >= script.schemas {
        stream_from(script, 0)
    } else {
        Stage::Ensuring { at: i as usize }
    }
}

/// The first record from `i` on to be replayed, or the commit when there is none.
pub open spec fn stream_from(script: Script, i: int) -> Stage
    decreases script.records.len() - i,
{
    if i >= script.records.len() {
        Stage::Committing
    } else {
        match script.records[i] {
            WalRecord::Delta { .. } => Stage::Applying { at: i as usize },
            WalRecord::Checkpoint { .. } => Stage::Applying { at: i as usize },
            WalRecord::Segment { .. } => Stage::Opening { at: i as usize },
            WalRecord::Run { .. } => stream_from(script, i + 1),
            WalRecord::Committed { .. } => stream_from(script, i + 1),
        }
    }
}

/// The file of the segment at `at`.
pub open spec fn file_at(script: Script, at: int) -> String {
    script.records[at]->file
}

/// The rows the line of the segment at `at` records.
pub open spec fn rows_at(script: Script, at: int) -> u64 {
    script.records[at]->rows
}

/// The stage that follows `stage` when `event` came of it.
pub open spec fn next_stage(script: Script, stage: Stage, event: Event) -> Stage {
    match (stage, event) {
        (Stage::Counting { at }, Event::Counted { rows }) => if rows == rows_at(
            script,
            at as int,
        ) {
            count_from(script, at + 1)
        } else {
            Stage::Abandoned(
                ReplayFault::Miscounted {
                    file: file_at(script, at as int),
                    recorded: rows_at(script, at as int),
                    decoded: rows,
                },
            )
        },
        (Stage::Counting { at }, Event::Failed { reason }) => Stage::Abandoned(
            ReplayFault::Unreadable { file: file_at(script, at as int), reason },
        ),
        (Stage::Ensuring { at }, Event::Done) => ensure_from(script, at + 1),
        (Stage::Applying { at }, Event::Done) => stream_from(script, at + 1),
        (Stage::Opening { at }, Event::Done) => Stage::Reading { at, rows: 0 },
        (Stage::Opening { at }, Event::Failed { reason }) => Stage::Abandoned(
            ReplayFault::Unreadable { file: file_at(script, at as int), reason },
        ),
        (Stage::Reading { at, rows }, Event::Batch { rows: more }) => if rows + more <= u64::MAX {
            Stage::Writing { at, rows: (rows + more) as u64 }
        } else {
            Stage::Abandoned(
                ReplayFault::Overflow {
                    file: file_at(script, at as int),
                    overflow: RowOverflow { sum: rows, rows: more },
                },
            )
        },
        (Stage::Reading { at, .. }, Event::Failed { reason }) => Stage::Abandoned(
            ReplayFault::Unreadable { file: file_at(script, at as int), reason },
        ),
        (Stage::Reading { at, rows }, Event::End) => if rows == rows_at(script, at as int) {
            stream_from(script, at + 1)
        } else {
            Stage::Abandoned(
                ReplayFault::Miscounted {
                    file: file_at(script, at as int),
                    recorded: rows_at(script, at as int),
                    decoded: rows,
                },
            )
        },
        (Stage::Writing { at, rows }, Event::Done) => Stage::Reading { at, rows },
        (Stage::Committing, Event::Done) => Stage::Finished,
        (Stage::Finished, _) => Stage::Finished,
        (Stage::Abandoned(fault), _) => Stage::Abandoned(fault),
        (_, _) => Stage::Abandoned(ReplayFault::OutOfTurn),
    }
}

/// The batches decoded once `event` came of `stage`: one more when a batch is to be written, as
/// far as they are counted.
pub open spec fn next_batches(stage: Stage, event: Event, batches: u64) -> u64 {
    match (stage, event) {
        (Stage::Reading { rows, .. }, Event::Batch { rows: more }) => if rows + more <= u64::MAX
            && batches < u64::MAX {
            (batches + 1) as u64
        } else {
            batches
        },
        _ => batches,
    }
}

/// The cursors once `event` came of `stage`: the one a checkpoint records where it was taken up.
pub open spec fn next_cursors(
    script: Script,
    stage: Stage,
    event: Event,
    cursors: Map<Seq<char>, Seq<char>>,
) -> Map<Seq<char>, Seq<char>> {
    match (stage, event) {
        (Stage::Applying { at }, Event::Done) => with_cursor(cursors, script.records[at as int]),
        _ => cursors,
    }
}

/// The cursors once `record` is replayed.
pub open spec fn with_cursor(cursors: Map<Seq<char>, Seq<char>>, record: WalRecord) -> Map<
    Seq<char>,
    Seq<char>,
> {
    match record {
        WalRecord::Checkpoint { stream, cursor, .. } => cursors.insert(stream@, cursor@),
        _ => cursors,
    }
}

/// Where the positions a stage names lie.
pub open spec fn in_range(script: Script, stage: Stage) -> bool {
    match stage {
        Stage::Counting { at } => at < script.records.len() && script.records[at as int] is Segment,
        Stage::Ensuring { at } => at < script.schemas,
        Stage::Applying { at } => at < script.records.len() && (script.records[at as int] is Delta
            || script.records[at as int] is Checkpoint),
        Stage::Opening { at } => at < script.records.len() && script.records[at as int] is Segment,
        Stage::Reading { at, .. } => at < script.records.len()
            && script.records[at as int] is Segment,
        Stage::Writing { at, .. } => at < script.records.len()
            && script.records[at as int] is Segment,
        _ => true,
    }
}

/// A replay under way.
#[derive(Debug)]
pub struct Replay {
    span: RecoverySpan,
    stage: Stage,
    batches: u64,
    cursors: Cursors,
}

impl Replay {
    /// The span, as replay reads it.
    pub closed spec fn script(&self) -> Script {
        script_of(self.span)
    }

    /// What the replay is at.
    pub closed spec fn at(&self) -> Stage {
        self.stage
    }

    /// How many batches were decoded for writing.
    pub closed spec fn decoded(&self) -> u64 {
        self.batches
    }

    /// The span.
    pub closed spec fn of(&self) -> RecoverySpan {
        self.span
    }

    /// The cursors taken up so far, over those the streams had.
    pub closed spec fn noted(&self) -> Map<Seq<char>, Seq<char>> {
        self.cursors@
    }

    /// The stage names positions that are there, and no stream has two cursors.
    pub closed spec fn wf(&self) -> bool {
        in_range(self.script(), self.stage) && self.cursors.wf()
    }

    /// The first segment from `i` on to be counted, or what follows when there is none.
    fn counted_to(span: &RecoverySpan, i: usize) -> (stage: Stage)
        requires
            i <= span.records@.len(),
        ensures
            stage == count_from(script_of(*span), i as int),
            in_range(script_of(*span), stage),
    {
        let ghost script = script_of(*span);
        let mut at: usize = i;
        while at < span.records.len()
            invariant
                i <= at <= span.records@.len(),
                script == script_of(*span),
                count_from(script, i as int) == count_from(script, at as int),
            decreases span.records.len() - at,
        {
            if let WalRecord::Segment { file, .. } = &span.records[at] {
                return match verify_segment_file(&span.load_id, file) {
                    Ok(_) => Stage::Counting { at },
                    Err(fault) => Stage::Abandoned(ReplayFault::Name(fault)),
                };
            }
            at = at + 1;
        }
        Self::ensured_to(span, 0)
    }

    /// The schema at `i` to be ensured, or what follows when there is none.
    fn ensured_to(span: &RecoverySpan, i: usize) -> (stage: Stage)
        requires
            i <= span.schemas@.len(),
        ensures
            stage == ensure_from(script_of(*span), i as int),
            in_range(script_of(*span), stage),
    {
        if i >= span.schemas.len() {
            Self::streamed_to(span, 0)
        } else {
            Stage::Ensuring { at: i }
        }
    }

    /// The first record from `i` on to be replayed, or the commit when there is none.
    fn streamed_to(span: &RecoverySpan, i: usize) -> (stage: Stage)
        requires
            i <= span.records@.len(),
        ensures
            stage == stream_from(script_of(*span), i as int),
            in_range(script_of(*span), stage),
    {
        let ghost script = script_of(*span);
        let mut at: usize = i;
        while at < span.records.len()
            invariant
                i <= at <= span.records@.len(),
                script == script_of(*span),
                stream_from(script, i as int) == stream_from(script, at as int),
            decreases span.records.len() - at,
        {
            match &span.records[at] {
                WalRecord::Delta { .. } => {
                    return Stage::Applying { at };
                },
                WalRecord::Checkpoint { .. } => {
                    return Stage::Applying { at };
                },
                WalRecord::Segment { .. } => {
                    return Stage::Opening { at };
                },
                WalRecord::Run { .. } => {},
                WalRecord::Committed { .. } => {},
            }
            at = at + 1;
        }
        Stage::Committing
    }

    /// The replay of `span`, with nothing done yet, the streams being at `cursors`.
    pub fn start(span: RecoverySpan, cursors: Cursors) -> (replay: Replay)
        requires
            cursors.wf(),
        ensures
            replay.wf(),
            replay.of() == span,
            replay.script() == script_of(span),
            replay.at() == count_from(replay.script(), 0),
            replay.decoded() == 0,
            replay.noted() == cursors@,
    {
        let stage: Stage = Self::counted_to(&span, 0);
        Replay { span, stage, batches: 0, cursors }
    }

    /// Goes on by what came of the stage the replay is at.
    pub fn advance(&mut self, event: Event)
        requires
            old(self).wf(),
        ensures
            final(self).wf(),
            final(self).of() == old(self).of(),
            final(self).script() == old(self).script(),
            final(self).at() == next_stage(old(self).script(), old(self).at(), event),
            final(self).decoded() == next_batches(old(self).at(), event, old(self).decoded()),
            final(self).noted() == next_cursors(
                old(self).script(),
                old(self).at(),
                event,
                old(self).noted(),
            ),
    {
        proof {
            assert(self.span.records.len() == self.span.records@.len());
            assert(self.span.schemas.len() == self.span.schemas@.len());
        }
        let mut stage: Stage = Stage::Committing;
        std::mem::swap(&mut stage, &mut self.stage);
        self.stage = match (stage, event) {
            (Stage::Counting { at }, Event::Counted { rows }) => match &self.span.records[at] {
                WalRecord::Segment { file, rows: recorded, .. } => if rows == *recorded {
                    Self::counted_to(&self.span, at + 1)
                } else {
                    Stage::Abandoned(
                        ReplayFault::Miscounted {
                            file: file.clone(),
                            recorded: *recorded,
                            decoded: rows,
                        },
                    )
                },
                _ => Stage::Abandoned(ReplayFault::OutOfTurn),
            },
            (Stage::Counting { at }, Event::Failed { reason }) => self.unreadable(at, reason),
            (Stage::Ensuring { at }, Event::Done) => Self::ensured_to(&self.span, at + 1),
            (Stage::Applying { at }, Event::Done) => {
                if let WalRecord::Checkpoint { stream, cursor, .. } = &self.span.records[at] {
                    self.cursors.note(stream, cursor);
                }
                Self::streamed_to(&self.span, at + 1)
            },
            (Stage::Opening { at }, Event::Done) => Stage::Reading { at, rows: 0 },
            (Stage::Opening { at }, Event::Failed { reason }) => self.unreadable(at, reason),
            (Stage::Reading { at, rows }, Event::Batch { rows: more }) => match checked_rows_sum(
                rows,
                more,
            ) {
                Ok(sum) => {
                    if self.batches < u64::MAX {
                        self.batches = self.batches + 1;
                    }
                    Stage::Writing { at, rows: sum }
                },
                Err(overflow) => match &self.span.records[at] {
                    WalRecord::Segment { file, .. } => Stage::Abandoned(
                        ReplayFault::Overflow { file: file.clone(), overflow },
                    ),
                    _ => Stage::Abandoned(ReplayFault::OutOfTurn),
                },
            },
            (Stage::Reading { at, rows: _ }, Event::Failed { reason }) => self.unreadable(
                at,
                reason,
            ),
            (Stage::Reading { at, rows }, Event::End) => match &self.span.records[at] {
                WalRecord::Segment { file, rows: recorded, .. } => if rows == *recorded {
                    Self::streamed_to(&self.span, at + 1)
                } else {
                    Stage::Abandoned(
                        ReplayFault::Miscounted {
                            file: file.clone(),
                            recorded: *recorded,
                            decoded: rows,
                        },
                    )
                },
                _ => Stage::Abandoned(ReplayFault::OutOfTurn),
            },
            (Stage::Writing { at, rows }, Event::Done) => Stage::Reading { at, rows },
            (Stage::Committing, Event::Done) => Stage::Finished,
            (Stage::Finished, _) => Stage::Finished,
            (Stage::Abandoned(fault), _) => Stage::Abandoned(fault),
            (_, _) => Stage::Abandoned(ReplayFault::OutOfTurn),
        };
    }

    /// The replay given up over the segment at `at`.
    fn unreadable(&self, at: usize, reason: String) -> (stage: Stage)
        requires
            at < self.script().records.len(),
            self.script().records[at as int] is Segment,
        ensures
            stage == Stage::Abandoned(
                ReplayFault::Unreadable { file: file_at(self.script(), at as int), reason },
            ),
    {
        match &self.span.records[at] {
            WalRecord::Segment { file, .. } => Stage::Abandoned(
                ReplayFault::Unreadable { file: file.clone(), reason },
            ),
            _ => Stage::Abandoned(ReplayFault::OutOfTurn),
        }
    }

    /// What the replay is at, and so what is to be done next.
    pub fn stage(&self) -> (stage: &Stage)
        ensures
            *stage == self.at(),
    {
        &self.stage
    }

    /// The span.
    pub fn span(&self) -> (span: &RecoverySpan)
        ensures
            *span == self.of(),
    {
        &self.span
    }

    /// The cursors taken up so far, over those the streams had.
    pub fn cursors(&self) -> (cursors: &Cursors)
        requires
            self.wf(),
        ensures
            cursors.wf(),
            cursors@ == self.noted(),
    {
        &self.cursors
    }

    /// What is committed once the span is replayed: its run's load, under the span's sequence, with
    /// the cursors taken up, the commit itself being the last one the state is of.
    pub fn commit(&self) -> (commit: Commit)
        requires
            self.wf(),
        ensures
            commit.load_id@ == self.of().load_id@,
            commit.commit_seq == self.of().next_commit_seq,
            commit.cursors.wf(),
            commit.cursors@ == self.noted(),
            commit.last_commit.load_id@ == commit.load_id@,
            commit.last_commit.commit_seq == commit.commit_seq,
    {
        let load_id: String = self.span.load_id.clone();
        let commit_seq: u64 = self.span.next_commit_seq;
        Commit {
            load_id: load_id.clone(),
            commit_seq,
            cursors: self.cursors.copied(),
            last_commit: LastCommit { load_id, commit_seq },
        }
    }

    /// How many batches were decoded for writing.
    pub fn batches(&self) -> (batches: u64)
        ensures
            batches == self.decoded(),
    {
        self.batches
    }
}

/// The stage a replay is at after `events`.
pub open spec fn stage_after(script: Script, events: Seq<Event>) -> Stage
    decreases events.len(),
{
    if events.len() == 0 {
        count_from(script, 0)
    } else {
        next_stage(script, stage_after(script, events.drop_last()), events.last())
    }
}

/// Whether the segment at `i` was counted, with the rows its line records, during `events`.
pub open spec fn was_counted(script: Script, events: Seq<Event>, i: int) -> bool {
    exists|n: int| #[trigger] counted_at(script, events, i, n)
}

/// Whether the event `n` counted the segment at `i`, with the rows its line records.
pub open spec fn counted_at(script: Script, events: Seq<Event>, i: int, n: int) -> bool {
    &&& 0 <= n < events.len()
    &&& stage_after(script, events.take(n)) matches Stage::Counting { at } && at == i
    &&& events[n] == (Event::Counted { rows: rows_at(script, i) })
}

/// Whether all segments before `to` have the writer's names and were counted during `events`.
spec fn counted_before(script: Script, events: Seq<Event>, to: int) -> bool {
    forall|i: int|
        0 <= i < to && i < script.records.len() && (#[trigger] script.records[i]) is Segment
            ==> name_fault(script.load_id, file_at(script, i)) is None && was_counted(
            script,
            events,
            i,
        )
}

/// Whether a stage asks for something to be written, or follows one that does.
pub open spec fn writes(stage: Stage) -> bool {
    match stage {
        Stage::Counting { .. } => false,
        Stage::Abandoned(_) => false,
        _ => true,
    }
}

/// What holds of the counting after `events`.
spec fn counting_holds(script: Script, events: Seq<Event>) -> bool {
    match stage_after(script, events) {
        Stage::Counting { at } => at < script.records.len() && script.records[at as int] is Segment
            && name_fault(script.load_id, file_at(script, at as int)) is None && counted_before(
            script,
            events,
            at as int,
        ),
        Stage::Abandoned(_) => true,
        _ => counted_before(script, events, script.records.len() as int),
    }
}

proof fn lemma_count_from(script: Script, i: int)
    requires
        0 <= i <= script.records.len() <= usize::MAX,
    ensures
        match count_from(script, i) {
            Stage::Counting { at } => i <= at < script.records.len()
                && script.records[at as int] is Segment && name_fault(
                script.load_id,
                file_at(script, at as int),
            ) is None && forall|k: int|
                i <= k < at ==> !((#[trigger] script.records[k]) is Segment),
            Stage::Abandoned(_) => true,
            _ => writes(count_from(script, i)) && forall|k: int|
                i <= k < script.records.len() ==> !((#[trigger] script.records[k]) is Segment),
        },
    decreases script.records.len() - i,
{
    if i < script.records.len() {
        if !(script.records[i] is Segment) {
            lemma_count_from(script, i + 1);
        }
    } else {
        lemma_stream_from(script, 0);
    }
}

proof fn lemma_stream_from(script: Script, i: int)
    requires
        0 <= i <= script.records.len() <= usize::MAX,
    ensures
        match stream_from(script, i) {
            Stage::Applying { at } => i <= at < script.records.len() && !(
            script.records[at as int] is Segment) && forall|k: int|
                i <= k < at ==> !((#[trigger] script.records[k]) is Segment),
            Stage::Opening { at } => i <= at < script.records.len()
                && script.records[at as int] is Segment && forall|k: int|
                i <= k < at ==> !((#[trigger] script.records[k]) is Segment),
            Stage::Committing => forall|k: int|
                i <= k < script.records.len() ==> !((#[trigger] script.records[k]) is Segment),
            _ => false,
        },
    decreases script.records.len() - i,
{
    if i < script.records.len() {
        if script.records[i] is Run || script.records[i] is Committed {
            lemma_stream_from(script, i + 1);
        }
    }
}

proof fn lemma_counted_stays(script: Script, events: Seq<Event>, event: Event, i: int)
    requires
        was_counted(script, events, i),
    ensures
        was_counted(script, events.push(event), i),
{
    let n = choose|n: int| #[trigger] counted_at(script, events, i, n);
    assert(events.push(event).take(n) =~= events.take(n));
    assert(counted_at(script, events.push(event), i, n));
}

proof fn lemma_counting(script: Script, events: Seq<Event>)
    requires
        script.records.len() <= usize::MAX,
        0 <= script.schemas <= usize::MAX,
    ensures
        counting_holds(script, events),
    decreases events.len(),
{
    lemma_stream_from(script, 0);
    if events.len() == 0 {
        lemma_count_from(script, 0);
    } else {
        let before = events.drop_last();
        let event = events.last();
        lemma_counting(script, before);
        assert(before.push(event) =~= events);
        assert forall|i: int| was_counted(script, before, i) implies was_counted(
            script,
            events,
            i,
        ) by {
            lemma_counted_stays(script, before, event, i);
        }
        let stage = stage_after(script, before);
        match stage {
            Stage::Counting { at } => {
                lemma_count_from(script, at + 1);
                if event == (Event::Counted { rows: rows_at(script, at as int) }) {
                    assert(events.take(events.len() - 1) =~= before);
                    assert(counted_at(script, events, at as int, events.len() - 1));
                }
            },
            Stage::Applying { at } => {
                if at < script.records.len() {
                    lemma_stream_from(script, at + 1);
                }
            },
            Stage::Reading { at, .. } => {
                if at < script.records.len() {
                    lemma_stream_from(script, at + 1);
                }
            },
            _ => {},
        }
    }
}

/// Nothing of a span reaches the destination before every segment of it has the writer's name and
/// was decoded whole, with the rows its line records.
pub proof fn law_every_segment_is_counted_before_anything_is_written(
    script: Script,
    events: Seq<Event>,
    i: int,
)
    requires
        script.records.len() <= usize::MAX,
        0 <= script.schemas <= usize::MAX,
        writes(stage_after(script, events)),
        0 <= i < script.records.len(),
        script.records[i] is Segment,
    ensures
        name_fault(script.load_id, file_at(script, i)) is None,
        was_counted(script, events, i),
{
    lemma_counting(script, events);
}

/// The rows read of the segment at `i`, `rows` before, once `event` came of `stage`.
pub open spec fn rows_once(stage: Stage, event: Event, rows: int, i: int) -> int {
    match (stage, event) {
        (Stage::Opening { at }, _) => if at == i {
            0
        } else {
            rows
        },
        (Stage::Reading { at, .. }, Event::Batch { rows: more }) => if at == i {
            rows + more
        } else {
            rows
        },
        _ => rows,
    }
}

/// The rows of the batches decoded for the segment at `i` since it was last opened.
pub open spec fn rows_read(script: Script, events: Seq<Event>, i: int) -> int
    decreases events.len(),
{
    if events.len() == 0 {
        0
    } else {
        rows_once(
            stage_after(script, events.drop_last()),
            events.last(),
            rows_read(script, events.drop_last(), i),
            i,
        )
    }
}

/// Whether the rows read of every segment before `to`, which `rows` gives, are those its line
/// records.
spec fn adds_up_before(script: Script, rows: spec_fn(int) -> int, to: int) -> bool {
    forall|i: int|
        0 <= i < to && i < script.records.len() && (#[trigger] script.records[i]) is Segment
            ==> rows(i) == rows_at(script, i)
}

/// What holds at `stage` of the rows read, which `rows` gives.
spec fn reading_holds(script: Script, stage: Stage, rows: spec_fn(int) -> int) -> bool {
    match stage {
        Stage::Counting { at } => at < script.records.len(),
        Stage::Applying { at } => at < script.records.len() && adds_up_before(
            script,
            rows,
            at as int,
        ) && !(script.records[at as int] is Segment),
        Stage::Opening { at } => at < script.records.len() && adds_up_before(
            script,
            rows,
            at as int,
        ),
        Stage::Reading { at, rows: so_far } => at < script.records.len() && adds_up_before(
            script,
            rows,
            at as int,
        ) && rows(at as int) == so_far,
        Stage::Writing { at, rows: so_far } => at < script.records.len() && adds_up_before(
            script,
            rows,
            at as int,
        ) && rows(at as int) == so_far,
        Stage::Committing => adds_up_before(script, rows, script.records.len() as int),
        Stage::Finished => adds_up_before(script, rows, script.records.len() as int),
        _ => true,
    }
}

proof fn lemma_stream_on(script: Script, rows: spec_fn(int) -> int, i: int)
    requires
        0 <= i <= script.records.len() <= usize::MAX,
        adds_up_before(script, rows, i),
    ensures
        reading_holds(script, stream_from(script, i), rows),
{
    lemma_stream_from(script, i);
}

proof fn lemma_reading_step(
    script: Script,
    stage: Stage,
    event: Event,
    rows: spec_fn(int) -> int,
    after: spec_fn(int) -> int,
)
    requires
        script.records.len() <= usize::MAX,
        0 <= script.schemas <= usize::MAX,
        reading_holds(script, stage, rows),
        forall|i: int| #[trigger] after(i) == rows_once(stage, event, rows(i), i),
    ensures
        reading_holds(script, next_stage(script, stage, event), after),
{
    lemma_stream_on(script, after, 0);
    match stage {
        Stage::Counting { at } => {
            lemma_count_from(script, at + 1);
            lemma_starts_at_the_first(script, at + 1);
        },
        Stage::Applying { at } => {
            assert(adds_up_before(script, after, at + 1));
            lemma_stream_on(script, after, at + 1);
        },
        Stage::Reading { at, rows: so_far } => {
            if event is End && so_far == rows_at(script, at as int) {
                assert(adds_up_before(script, after, at + 1));
                lemma_stream_on(script, after, at + 1);
            }
        },
        _ => {},
    }
}

proof fn lemma_reading(script: Script, events: Seq<Event>)
    requires
        script.records.len() <= usize::MAX,
        0 <= script.schemas <= usize::MAX,
    ensures
        reading_holds(
            script,
            stage_after(script, events),
            |i: int| rows_read(script, events, i),
        ),
    decreases events.len(),
{
    let after = |i: int| rows_read(script, events, i);
    if events.len() == 0 {
        lemma_count_from(script, 0);
        lemma_starts_at_the_first(script, 0);
        lemma_stream_on(script, after, 0);
    } else {
        let before = events.drop_last();
        lemma_reading(script, before);
        lemma_reading_step(
            script,
            stage_after(script, before),
            events.last(),
            |i: int| rows_read(script, before, i),
            after,
        );
    }
}

/// Where counting ends, writing begins at the front of the span.
proof fn lemma_starts_at_the_first(script: Script, i: int)
    requires
        0 <= i <= script.records.len() <= usize::MAX,
    ensures
        match count_from(script, i) {
            Stage::Counting { .. } => true,
            Stage::Ensuring { .. } => true,
            Stage::Abandoned(_) => true,
            stage => stage == stream_from(script, 0),
        },
    decreases script.records.len() - i,
{
    if i < script.records.len() {
        if !(script.records[i] is Segment) {
            lemma_starts_at_the_first(script, i + 1);
        }
    } else {
        lemma_stream_from(script, 0);
    }
}

/// What is committed is what the lines record: of every segment exactly its recorded rows were
/// decoded for writing, however the file changed since it was counted.
pub proof fn law_committed_rows_add_up(script: Script, events: Seq<Event>, i: int)
    requires
        script.records.len() <= usize::MAX,
        0 <= script.schemas <= usize::MAX,
        stage_after(script, events) == Stage::Committing || stage_after(script, events)
            == Stage::Finished,
        0 <= i < script.records.len(),
        script.records[i] is Segment,
    ensures
        rows_read(script, events, i) == rows_at(script, i),
{
    lemma_reading(script, events);
}

/// The cursors a replay has taken up after `events`, the streams having been at `known`.
pub open spec fn cursors_after(
    script: Script,
    known: Map<Seq<char>, Seq<char>>,
    events: Seq<Event>,
) -> Map<Seq<char>, Seq<char>>
    decreases events.len(),
{
    if events.len() == 0 {
        known
    } else {
        next_cursors(
            script,
            stage_after(script, events.drop_last()),
            events.last(),
            cursors_after(script, known, events.drop_last()),
        )
    }
}

/// The cursors that `records` leave, the streams having been at `known`: each checkpoint's, over
/// those before it.
pub open spec fn cursors_of(
    records: Seq<WalRecord>,
    known: Map<Seq<char>, Seq<char>>,
) -> Map<Seq<char>, Seq<char>>
    decreases records.len(),
{
    if records.len() == 0 {
        known
    } else {
        with_cursor(cursors_of(records.drop_last(), known), records.last())
    }
}

/// What `cursors` are at `stage`: those the records before the stage's leave.
spec fn noting_holds(
    script: Script,
    known: Map<Seq<char>, Seq<char>>,
    stage: Stage,
    cursors: Map<Seq<char>, Seq<char>>,
) -> bool {
    match stage {
        Stage::Counting { at } => at < script.records.len() && cursors == known,
        Stage::Ensuring { .. } => cursors == known,
        Stage::Applying { at } => at < script.records.len() && cursors == cursors_of(
            script.records.take(at as int),
            known,
        ),
        Stage::Opening { at } => at < script.records.len() && script.records[at as int] is Segment
            && cursors == cursors_of(script.records.take(at as int), known),
        Stage::Reading { at, .. } => at < script.records.len()
            && script.records[at as int] is Segment && cursors == cursors_of(
            script.records.take(at as int),
            known,
        ),
        Stage::Writing { at, .. } => at < script.records.len()
            && script.records[at as int] is Segment && cursors == cursors_of(
            script.records.take(at as int),
            known,
        ),
        Stage::Committing => cursors == cursors_of(script.records, known),
        Stage::Finished => cursors == cursors_of(script.records, known),
        Stage::Abandoned(_) => true,
    }
}

proof fn lemma_cursors_step(records: Seq<WalRecord>, known: Map<Seq<char>, Seq<char>>, i: int)
    requires
        0 <= i < records.len(),
    ensures
        cursors_of(records.take(i + 1), known) == with_cursor(
            cursors_of(records.take(i), known),
            records[i],
        ),
{
    assert(records.take(i + 1).drop_last() =~= records.take(i));
}

proof fn lemma_stream_notes(script: Script, known: Map<Seq<char>, Seq<char>>, i: int)
    requires
        0 <= i <= script.records.len() <= usize::MAX,
    ensures
        noting_holds(
            script,
            known,
            stream_from(script, i),
            cursors_of(script.records.take(i), known),
        ),
    decreases script.records.len() - i,
{
    if i < script.records.len() {
        if script.records[i] is Run || script.records[i] is Committed {
            lemma_cursors_step(script.records, known, i);
            lemma_stream_notes(script, known, i + 1);
        }
    } else {
        assert(script.records.take(i) =~= script.records);
    }
}

proof fn lemma_count_notes(script: Script, known: Map<Seq<char>, Seq<char>>, i: int)
    requires
        0 <= i <= script.records.len() <= usize::MAX,
    ensures
        noting_holds(script, known, count_from(script, i), known),
    decreases script.records.len() - i,
{
    if i < script.records.len() {
        if !(script.records[i] is Segment) {
            lemma_count_notes(script, known, i + 1);
        }
    } else {
        assert(script.records.take(0) =~= Seq::<WalRecord>::empty());
        lemma_stream_notes(script, known, 0);
    }
}

proof fn lemma_noting(script: Script, known: Map<Seq<char>, Seq<char>>, events: Seq<Event>)
    requires
        script.records.len() <= usize::MAX,
        0 <= script.schemas <= usize::MAX,
    ensures
        noting_holds(
            script,
            known,
            stage_after(script, events),
            cursors_after(script, known, events),
        ),
    decreases events.len(),
{
    if events.len() == 0 {
        lemma_count_notes(script, known, 0);
    } else {
        let before = events.drop_last();
        lemma_noting(script, known, before);
        assert(script.records.take(0) =~= Seq::<WalRecord>::empty());
        lemma_stream_notes(script, known, 0);
        match stage_after(script, before) {
            Stage::Counting { at } => {
                lemma_count_notes(script, known, at + 1);
            },
            Stage::Applying { at } => {
                lemma_cursors_step(script.records, known, at as int);
                lemma_stream_notes(script, known, at + 1);
            },
            Stage::Reading { at, .. } => {
                lemma_cursors_step(script.records, known, at as int);
                lemma_stream_notes(script, known, at + 1);
            },
            _ => {},
        }
    }
}

/// What is committed carries what the span's checkpoints record: the cursors all its records leave.
pub proof fn law_commits_carry_every_cursor(
    script: Script,
    known: Map<Seq<char>, Seq<char>>,
    events: Seq<Event>,
)
    requires
        script.records.len() <= usize::MAX,
        0 <= script.schemas <= usize::MAX,
        stage_after(script, events) == Stage::Committing || stage_after(script, events)
            == Stage::Finished,
    ensures
        cursors_after(script, known, events) == cursors_of(script.records, known),
{
    lemma_noting(script, known, events);
}

/// Whether the record at `i` is the last checkpoint of `stream`.
pub open spec fn is_last_checkpoint(records: Seq<WalRecord>, stream: Seq<char>, i: int) -> bool {
    &&& 0 <= i < records.len()
    &&& is_checkpoint_of(records[i], stream)
    &&& forall|later: int| i < later < records.len() ==> !is_checkpoint_of(
        #[trigger] records[later],
        stream,
    )
}

/// Whether `record` is a checkpoint of `stream`.
pub open spec fn is_checkpoint_of(record: WalRecord, stream: Seq<char>) -> bool {
    record matches WalRecord::Checkpoint { stream: of, .. } && of@ == stream
}

/// A stream is left at the cursor of its last checkpoint, and where it has none at the one it was
/// at.
pub proof fn law_the_last_checkpoint_counts(
    records: Seq<WalRecord>,
    known: Map<Seq<char>, Seq<char>>,
    stream: Seq<char>,
)
    ensures
        forall|i: int| #[trigger]
            is_last_checkpoint(records, stream, i) ==> cursors_of(records, known).dom().contains(
                stream,
            ) && cursors_of(records, known)[stream] == records[i]->cursor@,
        (forall|i: int| 0 <= i < records.len() ==> !is_checkpoint_of(#[trigger] records[i], stream))
            ==> cursors_of(records, known).dom().contains(stream) == known.dom().contains(stream)
            && cursors_of(records, known)[stream] == known[stream],
    decreases records.len(),
{
    if records.len() > 0 {
        let front = records.drop_last();
        law_the_last_checkpoint_counts(front, known, stream);
        assert forall|i: int| #[trigger] is_last_checkpoint(records, stream, i) implies cursors_of(
            records,
            known,
        ).dom().contains(stream) && cursors_of(records, known)[stream] == records[i]->cursor@ by {
            if i < front.len() {
                assert(front[i] == records[i]);
                assert(is_last_checkpoint(front, stream, i)) by {
                    assert forall|later: int| i < later < front.len() implies !is_checkpoint_of(
                        #[trigger] front[later],
                        stream,
                    ) by {
                        assert(front[later] == records[later]);
                    }
                }
                assert(!is_checkpoint_of(records[front.len() as int], stream));
            }
        }
        if forall|i: int| 0 <= i < records.len() ==> !is_checkpoint_of(#[trigger] records[i], stream) {
            assert(!is_checkpoint_of(records[front.len() as int], stream));
            assert forall|i: int| 0 <= i < front.len() implies !is_checkpoint_of(
                #[trigger] front[i],
                stream,
            ) by {
                assert(front[i] == records[i]);
            }
        }
    }
}

/// A commit comes last: once it is asked for nothing else is, and it is asked for once.
pub proof fn law_the_commit_comes_last(script: Script, events: Seq<Event>, more: Seq<Event>)
    requires
        stage_after(script, events) is Committing,
        more.len() > 0,
    ensures
        stage_after(script, events + more) is Finished || stage_after(script, events + more)
            is Abandoned,
    decreases more.len(),
{
    assert((events + more).drop_last() =~= events + more.drop_last());
    if more.len() == 1 {
        assert(events + more.drop_last() =~= events);
    } else {
        law_the_commit_comes_last(script, events, more.drop_last());
    }
}

/// A replay that was given up stays given up, and one that is finished stays finished.
pub proof fn law_replays_end_once(script: Script, events: Seq<Event>, more: Seq<Event>)
    requires
        stage_after(script, events) is Abandoned || stage_after(script, events) is Finished,
    ensures
        stage_after(script, events + more) == stage_after(script, events),
    decreases more.len(),
{
    if more.len() == 0 {
        assert(events + more =~= events);
    } else {
        law_replays_end_once(script, events, more.drop_last());
        assert((events + more).drop_last() =~= events + more.drop_last());
    }
}

/// Whether what `stage` asks for was done, as the event `n`.
pub open spec fn was_done(script: Script, events: Seq<Event>, stage: Stage, n: int) -> bool {
    &&& 0 <= n < events.len()
    &&& stage_after(script, events.take(n)) == stage
    &&& events[n] == Event::Done
}

/// How far a replay is: past the segments counted, the schemas ensured, and the records replayed.
pub open spec fn place(script: Script, stage: Stage) -> int {
    let counted = script.records.len() as int;
    let ensured = counted + script.schemas;
    match stage {
        Stage::Counting { at } => at as int,
        Stage::Ensuring { at } => counted + at,
        Stage::Applying { at } => ensured + at,
        Stage::Opening { at } => ensured + at,
        Stage::Reading { at, .. } => ensured + at,
        Stage::Writing { at, .. } => ensured + at,
        Stage::Committing => ensured + counted,
        Stage::Finished => ensured + counted + 1,
        Stage::Abandoned(_) => ensured + counted + 2,
    }
}

proof fn lemma_stream_place(script: Script, i: int)
    requires
        0 <= i <= script.records.len() <= usize::MAX,
        0 <= script.schemas <= usize::MAX,
    ensures
        ({
            let stage = stream_from(script, i);
            let at = place(script, stage) - script.records.len() - script.schemas;
            &&& stage is Applying || stage is Opening || stage is Committing
            &&& in_range(script, stage)
            &&& i <= at <= script.records.len()
            &&& stage is Committing <==> at == script.records.len()
            &&& forall|k: int|
                i <= k < at ==> (#[trigger] script.records[k]) is Run || script.records[k] is Committed
        }),
    decreases script.records.len() - i,
{
    if i < script.records.len() {
        if script.records[i] is Run || script.records[i] is Committed {
            lemma_stream_place(script, i + 1);
        }
    }
}

proof fn lemma_count_place(script: Script, i: int)
    requires
        0 <= i <= script.records.len() <= usize::MAX,
        0 <= script.schemas <= usize::MAX,
    ensures
        place(script, count_from(script, i)) >= i,
        in_range(script, count_from(script, i)),
        count_from(script, i) is Counting || count_from(script, i) is Abandoned || count_from(
            script,
            i,
        ) == ensure_from(script, 0),
    decreases script.records.len() - i,
{
    lemma_stream_place(script, 0);
    if i < script.records.len() && !(script.records[i] is Segment) {
        lemma_count_place(script, i + 1);
    }
}

proof fn lemma_in_range(script: Script, events: Seq<Event>)
    requires
        script.records.len() <= usize::MAX,
        0 <= script.schemas <= usize::MAX,
    ensures
        in_range(script, stage_after(script, events)),
    decreases events.len(),
{
    lemma_stream_place(script, 0);
    if events.len() == 0 {
        lemma_count_place(script, 0);
    } else {
        lemma_in_range(script, events.drop_last());
        lemma_goes_on(script, stage_after(script, events.drop_last()), events.last());
    }
}

proof fn lemma_goes_on(script: Script, stage: Stage, event: Event)
    requires
        script.records.len() <= usize::MAX,
        0 <= script.schemas <= usize::MAX,
        in_range(script, stage),
    ensures
        in_range(script, next_stage(script, stage, event)),
        place(script, stage) <= place(script, next_stage(script, stage, event)),
{
    lemma_stream_place(script, 0);
    match stage {
        Stage::Counting { at } => {
            lemma_count_place(script, at + 1);
        },
        Stage::Applying { at } => {
            lemma_stream_place(script, at + 1);
        },
        Stage::Reading { at, .. } => {
            lemma_stream_place(script, at + 1);
        },
        _ => {},
    }
}

/// A replay never goes back: it counts the segments in their order, ensures the schemas in theirs,
/// and replays the records in theirs. What is done is not done again.
pub proof fn law_replays_go_forward(script: Script, events: Seq<Event>, event: Event)
    requires
        script.records.len() <= usize::MAX,
        0 <= script.schemas <= usize::MAX,
    ensures
        ({
            let stage = stage_after(script, events);
            let next = stage_after(script, events.push(event));
            &&& place(script, stage) <= place(script, next)
            &&& (stage is Ensuring || stage is Applying) && event == Event::Done ==> place(
                script,
                stage,
            ) < place(script, next)
            &&& stage is Counting && event is Counted ==> place(script, stage) < place(script, next)
            &&& stage is Reading && event == Event::End ==> place(script, stage) < place(
                script,
                next,
            )
        }),
{
    let stage = stage_after(script, events);
    assert(events.push(event).drop_last() =~= events);
    lemma_in_range(script, events);
    lemma_goes_on(script, stage, event);
    lemma_stream_place(script, 0);
    match stage {
        Stage::Counting { at } => {
            lemma_count_place(script, at + 1);
        },
        Stage::Applying { at } => {
            lemma_stream_place(script, at + 1);
        },
        Stage::Reading { at, .. } => {
            lemma_stream_place(script, at + 1);
        },
        _ => {},
    }
}

/// Whether the schema at `i` was ensured during `events`.
spec fn is_ensured(script: Script, events: Seq<Event>, i: int) -> bool {
    exists|n: int| #[trigger] was_done(script, events, Stage::Ensuring { at: i as usize }, n)
}

/// What is done of a span once the replay is at `stage`, after `events`: the schemas and records
/// that it is past.
spec fn is_past(script: Script, events: Seq<Event>, stage: Stage) -> bool {
    &&& forall|i: int|
        0 <= i < script.schemas && script.records.len() + i < place(script, stage)
            ==> #[trigger] is_ensured(script, events, i)
    &&& forall|i: int|
        0 <= i < script.records.len() && script.records.len() + script.schemas + i < place(
            script,
            stage,
        ) ==> match #[trigger] script.records[i] {
            WalRecord::Delta { .. } => exists|n: int| #[trigger]
                was_done(script, events, Stage::Applying { at: i as usize }, n),
            WalRecord::Checkpoint { .. } => exists|n: int| #[trigger]
                was_done(script, events, Stage::Applying { at: i as usize }, n),
            WalRecord::Segment { .. } => exists|n: int| #[trigger]
                was_done(script, events, Stage::Opening { at: i as usize }, n),
            _ => true,
        }
    &&& stage matches Stage::Reading { at, .. } ==> exists|n: int| #[trigger]
        was_done(script, events, Stage::Opening { at }, n)
    &&& stage matches Stage::Writing { at, .. } ==> exists|n: int| #[trigger]
        was_done(script, events, Stage::Opening { at }, n)
}

proof fn lemma_stays_done(script: Script, events: Seq<Event>, event: Event, stage: Stage)
    requires
        exists|n: int| #[trigger] was_done(script, events, stage, n),
    ensures
        exists|n: int| #[trigger] was_done(script, events.push(event), stage, n),
{
    let n = choose|n: int| #[trigger] was_done(script, events, stage, n);
    assert(events.push(event).take(n) =~= events.take(n));
    assert(was_done(script, events.push(event), stage, n));
}

#[verifier::rlimit(40)]
proof fn lemma_past(script: Script, events: Seq<Event>)
    requires
        script.records.len() <= usize::MAX,
        0 <= script.schemas <= usize::MAX,
        !(stage_after(script, events) is Abandoned),
    ensures
        is_past(script, events, stage_after(script, events)),
    decreases events.len(),
{
    let counted = script.records.len() as int;
    let ensured = counted + script.schemas;
    lemma_stream_place(script, 0);
    if events.len() == 0 {
        lemma_count_place(script, 0);
    } else {
        let before = events.drop_last();
        let event = events.last();
        let stage = stage_after(script, before);
        let next = stage_after(script, events);
        lemma_past(script, before);
        lemma_in_range(script, before);
        assert(before.push(event) =~= events);
        assert(events.take(events.len() - 1) =~= before);
        match stage {
            Stage::Counting { at } => {
                lemma_count_place(script, at + 1);
            },
            Stage::Applying { at } => {
                lemma_stream_place(script, at + 1);
            },
            Stage::Reading { at, .. } => {
                lemma_stream_place(script, at + 1);
            },
            _ => {},
        }
        if event == Event::Done {
            assert(was_done(script, events, stage, events.len() - 1));
        }
        assert forall|i: int|
            0 <= i < script.schemas && counted + i < place(script, next) implies #[trigger] is_ensured(
            script,
            events,
            i,
        ) by {
            if counted + i < place(script, stage) {
                assert(is_ensured(script, before, i));
                lemma_stays_done(script, before, event, Stage::Ensuring { at: i as usize });
            } else {
                assert(stage == Stage::Ensuring { at: i as usize });
            }
        }
        assert forall|i: int|
            0 <= i < script.records.len() && ensured + i < place(script, next) implies match (
        #[trigger] script.records[i]) {
            WalRecord::Delta { .. } => exists|n: int| #[trigger]
                was_done(script, events, Stage::Applying { at: i as usize }, n),
            WalRecord::Checkpoint { .. } => exists|n: int| #[trigger]
                was_done(script, events, Stage::Applying { at: i as usize }, n),
            WalRecord::Segment { .. } => exists|n: int| #[trigger]
                was_done(script, events, Stage::Opening { at: i as usize }, n),
            _ => true,
        } by {
            if ensured + i < place(script, stage) {
                match script.records[i] {
                    WalRecord::Delta { .. } => {
                        lemma_stays_done(script, before, event, Stage::Applying { at: i as usize });
                    },
                    WalRecord::Checkpoint { .. } => {
                        lemma_stays_done(script, before, event, Stage::Applying { at: i as usize });
                    },
                    WalRecord::Segment { .. } => {
                        lemma_stays_done(script, before, event, Stage::Opening { at: i as usize });
                    },
                    _ => {},
                }
            } else if ensured + i == place(script, stage) {
                match stage {
                    Stage::Applying { at } => {
                        assert(stage == Stage::Applying { at: i as usize });
                    },
                    Stage::Reading { at, .. } => {
                        lemma_stays_done(script, before, event, Stage::Opening { at });
                    },
                    _ => {},
                }
            }
        }
        match stage {
            Stage::Reading { at, .. } => {
                lemma_stays_done(script, before, event, Stage::Opening { at });
            },
            Stage::Writing { at, .. } => {
                lemma_stays_done(script, before, event, Stage::Opening { at });
            },
            _ => {},
        }
    }
}

/// Nothing of a span is left out: before its commit, every schema it lists was ensured, every schema
/// and checkpoint among its records was applied, and every segment was opened.
pub proof fn law_everything_is_replayed_before_the_commit(
    script: Script,
    events: Seq<Event>,
    i: int,
)
    requires
        script.records.len() <= usize::MAX,
        0 <= script.schemas <= usize::MAX,
        stage_after(script, events) is Committing || stage_after(script, events) is Finished,
    ensures
        0 <= i < script.schemas ==> exists|n: int| #[trigger]
            was_done(script, events, Stage::Ensuring { at: i as usize }, n),
        0 <= i < script.records.len() && (script.records[i] is Delta
            || script.records[i] is Checkpoint) ==> exists|n: int| #[trigger]
            was_done(script, events, Stage::Applying { at: i as usize }, n),
        0 <= i < script.records.len() && script.records[i] is Segment ==> exists|n: int| #[trigger]
            was_done(script, events, Stage::Opening { at: i as usize }, n),
{
    lemma_past(script, events);
    if 0 <= i < script.schemas {
        assert(is_ensured(script, events, i));
    }
}

/// Whether `event` is what `stage` waits for, with the rows that the segment's line records.
pub open spec fn is_answer(script: Script, stage: Stage, event: Event) -> bool {
    match stage {
        Stage::Counting { at } => event == (Event::Counted { rows: rows_at(script, at as int) }),
        Stage::Reading { at, rows } => match event {
            Event::Batch { rows: more } => rows + more <= u64::MAX,
            Event::End => rows == rows_at(script, at as int),
            _ => false,
        },
        Stage::Finished => true,
        _ => event == Event::Done,
    }
}

/// A replay is abandoned only for a fault. Where the segments have the run's names, what a stage
/// waits for never abandons it, and anything else does: a segment that fails, or has other rows
/// than its line says, says so with its own file.
pub proof fn law_only_faults_abandon_a_replay(script: Script, stage: Stage, event: Event)
    requires
        script.records.len() <= usize::MAX,
        0 <= script.schemas <= usize::MAX,
        in_range(script, stage),
        !(stage is Abandoned),
        forall|i: int|
            0 <= i < script.records.len() && (#[trigger] script.records[i]) is Segment
                ==> name_fault(script.load_id, script.records[i]->file) is None,
    ensures
        next_stage(script, stage, event) is Abandoned <==> !is_answer(script, stage, event),
        ({
            let next = next_stage(script, stage, event);
            let at = place(script, stage) - if stage is Counting {
                0
            } else {
                script.records.len() + script.schemas
            };
            &&& (stage is Counting || stage is Opening || stage is Reading) && event is Failed
                ==> next == Stage::Abandoned(
                ReplayFault::Unreadable {
                    file: script.records[at]->file,
                    reason: event->reason,
                },
            )
            &&& stage is Counting && event is Counted && !is_answer(script, stage, event) ==> next
                == Stage::Abandoned(
                ReplayFault::Miscounted {
                    file: script.records[at]->file,
                    recorded: script.records[at]->rows,
                    decoded: event->Counted_rows,
                },
            )
            &&& stage is Reading && event is End && !is_answer(script, stage, event) ==> next
                == Stage::Abandoned(
                ReplayFault::Miscounted {
                    file: script.records[at]->file,
                    recorded: script.records[at]->rows,
                    decoded: stage->Reading_rows,
                },
            )
            &&& stage is Reading && event is Batch && is_answer(script, stage, event) ==> next
                == Stage::Writing {
                at: stage->Reading_at,
                rows: (stage->Reading_rows + event->Batch_rows) as u64,
            }
        }),
{
    lemma_stream_place(script, 0);
    match stage {
        Stage::Counting { at } => {
            lemma_no_bad_name(script, at + 1);
        },
        Stage::Applying { at } => {
            lemma_stream_place(script, at + 1);
        },
        Stage::Reading { at, .. } => {
            lemma_stream_place(script, at + 1);
        },
        _ => {},
    }
}

proof fn lemma_no_bad_name(script: Script, i: int)
    requires
        0 <= i <= script.records.len() <= usize::MAX,
        0 <= script.schemas <= usize::MAX,
        forall|k: int|
            0 <= k < script.records.len() && (#[trigger] script.records[k]) is Segment
                ==> name_fault(script.load_id, script.records[k]->file) is None,
    ensures
        !(count_from(script, i) is Abandoned),
    decreases script.records.len() - i,
{
    lemma_stream_place(script, 0);
    if i < script.records.len() && !(script.records[i] is Segment) {
        lemma_no_bad_name(script, i + 1);
    }
}

/// A batch is counted once, when it is taken up to be written, and nothing else is.
pub proof fn law_batches_are_counted_once(script: Script, stage: Stage, event: Event, batches: u64)
    requires
        script.records.len() <= usize::MAX,
        0 <= script.schemas <= usize::MAX,
        in_range(script, stage),
        batches < u64::MAX,
    ensures
        next_batches(stage, event, batches) == batches + if next_stage(script, stage, event)
            is Writing && !(stage is Writing) {
            1int
        } else {
            0int
        },
{
    lemma_stream_place(script, 0);
    match stage {
        Stage::Counting { at } => {
            lemma_count_place(script, at + 1);
        },
        Stage::Applying { at } => {
            lemma_stream_place(script, at + 1);
        },
        Stage::Reading { at, .. } => {
            lemma_stream_place(script, at + 1);
        },
        _ => {},
    }
}

} // verus!
