//! What only merge tables have: the sequence that orders their rows, and the compaction of a batch
//! to the rows a merge keeps.

use crate::text::{
    byte_orders, bytes_before, lemma_bytes_before_irreflexive, order_of_bytes, row_ordered,
};
use arrow_array::{Array, ArrayRef, Decimal128Array, LargeBinaryArray, LargeStringArray};
use arrow_row::{RowConverter, SortField};
use std::sync::Arc;
use vstd::prelude::*;

verus! {

/// The `width` big-endian bytes of `n`.
pub open spec fn big_endian(n: nat, width: nat) -> Seq<u8>
    decreases width,
{
    if width == 0 {
        Seq::empty()
    } else {
        big_endian(n / 256, (width - 1) as nat).push((n % 256) as u8)
    }
}

/// 256 to the power of `width`.
pub open spec fn power_of_256(width: nat) -> nat
    decreases width,
{
    if width == 0 {
        1
    } else {
        256 * power_of_256((width - 1) as nat)
    }
}

proof fn lemma_big_endian_len(n: nat, width: nat)
    ensures
        big_endian(n, width).len() == width,
    decreases width,
{
    if width > 0 {
        lemma_big_endian_len(n / 256, (width - 1) as nat);
    }
}

/// The last byte decides where all before it are equal.
proof fn lemma_before_push(a: Seq<u8>, b: Seq<u8>, x: u8, y: u8)
    requires
        a.len() == b.len(),
    ensures
        bytes_before(a.push(x), b.push(y)) == (bytes_before(a, b) || (a == b && x < y)),
    decreases a.len(),
{
    reveal_with_fuel(bytes_before, 2);
    if a.len() > 0 {
        lemma_before_push(a.drop_first(), b.drop_first(), x, y);
        assert(a.push(x).drop_first() =~= a.drop_first().push(x));
        assert(b.push(y).drop_first() =~= b.drop_first().push(y));
        if a[0] == b[0] && a.drop_first() == b.drop_first() {
            assert(a =~= seq![a[0]] + a.drop_first());
            assert(b =~= seq![b[0]] + b.drop_first());
        }
    } else {
        assert(a =~= b);
        assert(a.push(x).drop_first() =~= Seq::<u8>::empty());
        assert(b.push(y).drop_first() =~= Seq::<u8>::empty());
    }
}

/// Of two pairs of parts as long as each other, the first parts decide where they differ.
proof fn lemma_before_append(a: Seq<u8>, b: Seq<u8>, x: Seq<u8>, y: Seq<u8>)
    requires
        a.len() == b.len(),
        x.len() == y.len(),
    ensures
        bytes_before(a + x, b + y) == (bytes_before(a, b) || (a == b && bytes_before(x, y))),
    decreases x.len(),
{
    if x.len() == 0 {
        assert(a + x =~= a);
        assert(b + y =~= b);
        assert(!bytes_before(x, y));
    } else {
        lemma_before_append(a, b, x.drop_last(), y.drop_last());
        assert(a + x =~= (a + x.drop_last()).push(x.last()));
        assert(b + y =~= (b + y.drop_last()).push(y.last()));
        assert(x =~= x.drop_last().push(x.last()));
        assert(y =~= y.drop_last().push(y.last()));
        lemma_before_push(a + x.drop_last(), b + y.drop_last(), x.last(), y.last());
        lemma_before_push(x.drop_last(), y.drop_last(), x.last(), y.last());
        if a == b && x.drop_last() == y.drop_last() {
            assert(a + x.drop_last() == b + y.drop_last());
        }
        if a + x.drop_last() == b + y.drop_last() {
            assert(a =~= (a + x.drop_last()).take(a.len() as int));
            assert(b =~= (b + y.drop_last()).take(a.len() as int));
            assert(x.drop_last() =~= (a + x.drop_last()).skip(a.len() as int));
            assert(y.drop_last() =~= (b + y.drop_last()).skip(a.len() as int));
        }
        if a == b {
            lemma_bytes_before_irreflexive(a);
        }
    }
}

/// Numbers compare as their bytes do.
proof fn lemma_big_endian_orders(n: nat, m: nat, width: nat)
    requires
        n < power_of_256(width),
        m < power_of_256(width),
    ensures
        bytes_before(big_endian(n, width), big_endian(m, width)) == (n < m),
        (big_endian(n, width) == big_endian(m, width)) == (n == m),
    decreases width,
{
    if width > 0 {
        let less = (width - 1) as nat;
        let (a, b) = (big_endian(n / 256, less), big_endian(m / 256, less));
        lemma_big_endian_orders(n / 256, m / 256, less);
        lemma_big_endian_len(n / 256, less);
        lemma_big_endian_len(m / 256, less);
        lemma_before_push(a, b, (n % 256) as u8, (m % 256) as u8);
        assert(big_endian(n, width).drop_last() =~= a);
        assert(big_endian(m, width).drop_last() =~= b);
        assert(big_endian(n, width).last() == (n % 256) as u8);
        assert(big_endian(m, width).last() == (m % 256) as u8);
    } else {
        assert(big_endian(n, width) =~= Seq::<u8>::empty());
    }
}

/// A row's sequence: its segment, then its position among the segment's rows, big-endian.
pub open spec fn sequence_of(segment: u64, position: u64) -> Seq<u8> {
    big_endian(segment as nat, 8) + big_endian(position as nat, 8)
}

/// Appends the big-endian bytes of `n` to `out`.
fn push_big_endian(out: &mut Vec<u8>, n: u64)
    ensures
        final(out)@ == old(out)@ + big_endian(n as nat, 8),
{
    let ghost before = out@;
    out.push((n / 72_057_594_037_927_936 % 256) as u8);
    out.push((n / 281_474_976_710_656 % 256) as u8);
    out.push((n / 1_099_511_627_776 % 256) as u8);
    out.push((n / 4_294_967_296 % 256) as u8);
    out.push((n / 16_777_216 % 256) as u8);
    out.push((n / 65_536 % 256) as u8);
    out.push((n / 256 % 256) as u8);
    out.push((n % 256) as u8);
    proof {
        reveal_with_fuel(big_endian, 9);
        let m = n as nat;
        assert(m / 256 / 256 == m / 65_536);
        assert(m / 65_536 / 256 == m / 16_777_216);
        assert(m / 16_777_216 / 256 == m / 4_294_967_296);
        assert(m / 4_294_967_296 / 256 == m / 1_099_511_627_776);
        assert(m / 1_099_511_627_776 / 256 == m / 281_474_976_710_656);
        assert(m / 281_474_976_710_656 / 256 == m / 72_057_594_037_927_936);
        assert(out@ =~= before + big_endian(m, 8));
    }
}

/// A row's sequence: its segment, then its position among the segment's rows, big-endian.
pub fn sequence_bytes(segment: u64, position: u64) -> (bytes: Vec<u8>)
    ensures
        bytes@ == sequence_of(segment, position),
        bytes@.len() == 16,
{
    let mut bytes: Vec<u8> = Vec::new();
    push_big_endian(&mut bytes, segment);
    push_big_endian(&mut bytes, position);
    proof {
        lemma_big_endian_len(segment as nat, 8);
        lemma_big_endian_len(position as nat, 8);
        assert(bytes@ =~= sequence_of(segment, position));
    }
    bytes
}

/// Sequences compare as their segments do, and within a segment as their positions do: later rows
/// have greater sequences, and no two rows have the same one.
pub proof fn law_sequences_order_rows(segment: u64, position: u64, other: u64, later: u64)
    ensures
        bytes_before(sequence_of(segment, position), sequence_of(other, later)) == (segment < other
            || (segment == other && position < later)),
        (sequence_of(segment, position) == sequence_of(other, later)) == (segment == other
            && position == later),
{
    reveal_with_fuel(power_of_256, 9);
    lemma_big_endian_len(segment as nat, 8);
    lemma_big_endian_len(position as nat, 8);
    lemma_big_endian_len(other as nat, 8);
    lemma_big_endian_len(later as nat, 8);
    lemma_big_endian_orders(segment as nat, other as nat, 8);
    lemma_big_endian_orders(position as nat, later as nat, 8);
    let (a, b) = (big_endian(segment as nat, 8), big_endian(other as nat, 8));
    let (x, y) = (big_endian(position as nat, 8), big_endian(later as nat, 8));
    lemma_before_append(a, b, x, y);
    if a + x == b + y {
        assert(a =~= (a + x).take(8));
        assert(b =~= (b + y).take(8));
        assert(x =~= (a + x).skip(8));
        assert(y =~= (b + y).skip(8));
    }
}

/// A row's number, or the greatest a position holds.
pub open spec fn clamped(row: int) -> u32 {
    if row <= u32::MAX {
        row as u32
    } else {
        u32::MAX
    }
}

/// The positions of the rows `kept` keeps.
pub open spec fn kept_positions(kept: Seq<bool>) -> Seq<u32>
    decreases kept.len(),
{
    if kept.len() == 0 {
        Seq::empty()
    } else {
        let before = kept_positions(kept.drop_last());
        if kept.last() {
            before.push(clamped(kept.len() - 1))
        } else {
            before
        }
    }
}

/// The positions of kept rows ascend: their sequences follow the order of the rows. A batch of more
/// rows than a position holds has no such order.
pub proof fn law_kept_positions_ascend(kept: Seq<bool>, i: int, j: int)
    requires
        kept.len() <= u32::MAX + 1,
        0 <= i < j < kept_positions(kept).len(),
    ensures
        kept_positions(kept)[i] < kept_positions(kept)[j] < kept.len(),
    decreases kept.len(),
{
    let front = kept.drop_last();
    let before = kept_positions(front);
    if j < before.len() {
        law_kept_positions_ascend(front, i, j);
    } else {
        lemma_position_is_a_row(front, i);
    }
}

proof fn lemma_position_is_a_row(kept: Seq<bool>, i: int)
    requires
        kept.len() <= u32::MAX + 1,
        0 <= i < kept_positions(kept).len(),
    ensures
        kept_positions(kept)[i] < kept.len(),
    decreases kept.len(),
{
    let before = kept_positions(kept.drop_last());
    if i < before.len() {
        lemma_position_is_a_row(kept.drop_last(), i);
    }
}

/// The positions of the rows `kept` keeps.
pub fn positions(kept: &Vec<bool>) -> (rows: Vec<u32>)
    ensures
        rows@ == kept_positions(kept@),
{
    let mut rows: Vec<u32> = Vec::new();
    let mut at: usize = 0;
    assert(kept@.take(0) =~= Seq::<bool>::empty());
    while at < kept.len()
        invariant
            at <= kept@.len(),
            rows@ == kept_positions(kept@.take(at as int)),
        decreases kept@.len() - at,
    {
        proof {
            assert(kept@.take(at + 1).drop_last() =~= kept@.take(at as int));
            assert(kept@.take(at + 1).last() == kept@[at as int]);
        }
        if kept[at] {
            let row: u64 = at as u64;
            if row <= 4_294_967_295 {
                rows.push(at as u32);
            } else {
                rows.push(u32::MAX);
            }
        }
        at = at + 1;
    }
    assert(kept@.take(at as int) =~= kept@);
    rows
}

/// The items of the rows `kept` keeps.
pub open spec fn kept_items<T>(items: Seq<T>, kept: Seq<bool>) -> Seq<T>
    decreases items.len(),
{
    if items.len() == 0 {
        Seq::empty()
    } else {
        let n = items.len() - 1;
        let before = kept_items(items.drop_last(), kept);
        if kept[n] {
            before.push(items.last())
        } else {
            before
        }
    }
}

/// The items of the rows `kept` keeps.
pub fn kept_rows(items: &Vec<u32>, kept: &Vec<bool>) -> (rows: Vec<u32>)
    requires
        items@.len() <= kept@.len(),
    ensures
        rows@ == kept_items(items@, kept@),
{
    let mut rows: Vec<u32> = Vec::new();
    let mut at: usize = 0;
    assert(items@.take(0) =~= Seq::<u32>::empty());
    while at < items.len()
        invariant
            at <= items@.len() <= kept@.len(),
            rows@ == kept_items(items@.take(at as int), kept@),
        decreases items@.len() - at,
    {
        proof {
            assert(items@.take(at + 1).drop_last() =~= items@.take(at as int));
            assert(items@.take(at + 1).last() == items@[at as int]);
        }
        if kept[at] {
            rows.push(items[at]);
        }
        at = at + 1;
    }
    assert(items@.take(at as int) =~= items@);
    rows
}

/// The position of the row `row` among the rows received: its own unless `positions` gives it.
pub open spec fn offset_of(row: int, positions: Option<Seq<u32>>) -> int {
    match positions {
        Some(positions) => positions[row] as int,
        None => row,
    }
}

/// Positions, where they are given.
pub open spec fn given(positions: Option<&Vec<u32>>) -> Option<Seq<u32>> {
    match positions {
        Some(positions) => Some(positions@),
        None => None,
    }
}

/// Each row's sequence in a merge table: its segment, then its position among the segment's rows,
/// the first of them at `first_row`; the row's own unless `positions` gives each row's.
pub fn sequence(segment: u64, first_row: u64, rows: usize, positions: Option<&Vec<u32>>) -> (
sequences: Vec<Vec<u8>>)
    requires
        positions matches Some(positions) ==> positions@.len() >= rows,
        forall|row: int|
            0 <= row < rows ==> first_row + #[trigger] offset_of(row, given(positions)) <= u64::MAX,
    ensures
        sequences@.len() == rows,
        forall|row: int|
            0 <= row < rows ==> (#[trigger] sequences@[row])@ == sequence_of(
                segment,
                (first_row + offset_of(row, given(positions))) as u64,
            ),
{
    let mut sequences: Vec<Vec<u8>> = Vec::new();
    let mut row: usize = 0;
    while row < rows
        invariant
            row <= rows,
            positions matches Some(positions) ==> positions@.len() >= rows,
            forall|row: int|
                0 <= row < rows ==> first_row + #[trigger] offset_of(row, given(positions))
                    <= u64::MAX,
            sequences@.len() == row,
            forall|i: int|
                0 <= i < row ==> (#[trigger] sequences@[i])@ == sequence_of(
                    segment,
                    (first_row + offset_of(i, given(positions))) as u64,
                ),
        decreases rows - row,
    {
        let offset: u64 = match positions {
            Some(positions) => positions[row] as u64,
            None => row as u64,
        };
        assert(offset == offset_of(row as int, given(positions)));
        sequences.push(sequence_bytes(segment, first_row + offset));
        row = row + 1;
    }
    sequences
}

/// Whether no later row has the key of `row`.
pub open spec fn is_last(keys: Seq<Vec<u8>>, row: int) -> bool {
    forall|later: int| row < later < keys.len() ==> (#[trigger] keys[later])@ != keys[row]@
}

/// Whether `rows` are the last rows of their keys, all of them, in their order.
pub open spec fn are_last_rows(keys: Seq<Vec<u8>>, rows: Seq<usize>) -> bool {
    &&& forall|i: int, j: int| 0 <= i < j < rows.len() ==> rows[i] < rows[j]
    &&& forall|i: int|
        0 <= i < rows.len() ==> #[trigger] rows[i] < keys.len() && is_last(keys, rows[i] as int)
    &&& forall|row: usize|
        row < keys.len() && #[trigger] is_last(keys, row as int) ==> rows.contains(row)
}

/// Where rows are sorted by key, a row is the last of its key where the next has another.
proof fn lemma_last_in_order(keys: Seq<Vec<u8>>, order: Seq<usize>, p: int)
    requires
        byte_orders(keys, order, 0, keys.len() as int),
        0 <= p < order.len(),
        keys.len() <= usize::MAX,
    ensures
        is_last(keys, order[p] as int) == (p + 1 == order.len() || bytes_before(
            keys[order[p] as int]@,
            keys[order[p + 1] as int]@,
        )),
{
    let row = order[p];
    if p + 1 < order.len() {
        let next = order[p + 1];
        assert(row_ordered(keys, row, next));
        if keys[next as int]@ == keys[row as int]@ {
            lemma_bytes_before_irreflexive(keys[row as int]@);
            assert(!is_last(keys, row as int));
        } else {
            crate::text::lemma_bytes_before_total(keys[row as int]@, keys[next as int]@);
        }
    }
    if p + 1 == order.len() || bytes_before(keys[row as int]@, keys[order[p + 1] as int]@) {
        assert forall|later: int| row < later < keys.len() implies (#[trigger] keys[later])@
            != keys[row as int]@ by {
            assert(order.contains(later as usize));
            let q = choose|q: int| 0 <= q < order.len() && order[q] == later as usize;
            if q < p {
                assert(row_ordered(keys, order[q], order[p]));
            } else if q > p {
                if q > p + 1 {
                    assert(row_ordered(keys, order[p + 1], order[q]));
                }
            }
        }
    }
}

/// The last row of each of `keys`, in their order; `None` where those are all of them.
pub fn last_rows(keys: &Vec<Vec<u8>>) -> (kept: Option<Vec<usize>>)
    ensures
        match kept {
            Some(rows) => are_last_rows(keys@, rows@) && rows@.len() < keys@.len(),
            None => forall|row: int| 0 <= row < keys@.len() ==> #[trigger] is_last(keys@, row),
        },
{
    let order: Vec<usize> = order_of_bytes(keys);
    let mut last: Vec<bool> = Vec::new();
    let mut at: usize = 0;
    while at < keys.len()
        invariant
            at <= keys@.len(),
            last@.len() == at,
        decreases keys@.len() - at,
    {
        last.push(false);
        at = at + 1;
    }
    let mut p: usize = 0;
    while p < order.len()
        invariant
            p <= order@.len(),
            last@.len() == keys@.len(),
            byte_orders(keys@, order@, 0, keys@.len() as int),
            forall|q: int|
                0 <= q < p ==> last@[#[trigger] order@[q] as int] == is_last(
                    keys@,
                    order@[q] as int,
                ),
        decreases order@.len() - p,
    {
        let row: usize = order[p];
        proof {
            assert(keys.len() == keys@.len());
            lemma_last_in_order(keys@, order@, p as int);
        }
        let ends: bool = p + 1 == order.len() || crate::text::is_before(
            keys[row].as_slice(),
            keys[order[p + 1]].as_slice(),
        );
        last.set(row, ends);
        p = p + 1;
    }
    proof {
        assert forall|row: int| 0 <= row < keys@.len() implies #[trigger] last@[row] == is_last(
            keys@,
            row,
        ) by {
            assert(order@.contains(row as usize));
            let q = choose|q: int| 0 <= q < order@.len() && order@[q] == row as usize;
            assert(last@[order@[q] as int] == is_last(keys@, order@[q] as int));
        }
    }
    let mut rows: Vec<usize> = Vec::new();
    let mut next: usize = 0;
    while next < last.len()
        invariant
            next <= last@.len() == keys@.len(),
            forall|row: int| 0 <= row < keys@.len() ==> #[trigger] last@[row] == is_last(keys@, row),
            rows@.len() <= next,
            rows@.len() == next ==> forall|row: int| 0 <= row < next ==> #[trigger] is_last(keys@, row),
            forall|i: int, j: int| 0 <= i < j < rows@.len() ==> rows@[i] < rows@[j],
            forall|i: int|
                0 <= i < rows@.len() ==> #[trigger] rows@[i] < next && is_last(
                    keys@,
                    rows@[i] as int,
                ),
            forall|row: usize|
                row < next && #[trigger] is_last(keys@, row as int) ==> rows@.contains(row),
        decreases last@.len() - next,
    {
        let ghost before = rows@;
        if last[next] {
            rows.push(next);
            proof {
                assert(rows@[before.len() as int] == next);
                assert forall|row: usize|
                    row < next + 1 && #[trigger] is_last(keys@, row as int) implies rows@.contains(
                    row,
                ) by {
                    if row < next {
                        let i = choose|i: int| 0 <= i < before.len() && before[i] == row;
                        assert(rows@[i] == row);
                    }
                }
            }
        }
        next = next + 1;
    }
    if rows.len() == keys.len() {
        None
    } else {
        Some(rows)
    }
}

/// The values of a key column, each of them there.
#[derive(Debug)]
pub enum KeyColumn {
    /// Booleans and integers, the digits of decimals, and the counts that dates, times, timestamps
    /// and durations are.
    Numbers(Vec<i128>),
    Texts(Vec<String>),
    Bytes(Vec<Vec<u8>>),
}

impl KeyColumn {
    /// How many values it has.
    pub open spec fn count(self) -> nat {
        match self {
            KeyColumn::Numbers(values) => values@.len(),
            KeyColumn::Texts(values) => values@.len(),
            KeyColumn::Bytes(values) => values@.len(),
        }
    }

    /// Whether the rows `i` and `j` have the same value.
    pub open spec fn agrees(self, i: int, j: int) -> bool {
        match self {
            KeyColumn::Numbers(values) => values@[i] == values@[j],
            KeyColumn::Texts(values) => values@[i]@ == values@[j]@,
            KeyColumn::Bytes(values) => values@[i]@ == values@[j]@,
        }
    }
}

/// Whether `columns` are the key columns of `rows` rows.
pub open spec fn are_keys(columns: Seq<KeyColumn>, rows: nat) -> bool {
    &&& columns.len() > 0
    &&& forall|c: int| 0 <= c < columns.len() ==> (#[trigger] columns[c]).count() == rows
}

/// Whether the rows `i` and `j` have the same key: the same value in each of its columns.
pub open spec fn same_key(columns: Seq<KeyColumn>, i: int, j: int) -> bool {
    forall|c: int| 0 <= c < columns.len() ==> (#[trigger] columns[c]).agrees(i, j)
}

/// Whether no later one of `count` rows has the key of `row`.
pub open spec fn ends_its_key(columns: Seq<KeyColumn>, count: nat, row: int) -> bool {
    forall|later: int| row < later < count ==> !(#[trigger] same_key(columns, later, row))
}

/// Whether `rows` are those of `count` rows that are the last of their keys, all of them, in their
/// order.
pub open spec fn end_their_keys(columns: Seq<KeyColumn>, count: nat, rows: Seq<usize>) -> bool {
    &&& forall|i: int, j: int| 0 <= i < j < rows.len() ==> rows[i] < rows[j]
    &&& forall|i: int|
        0 <= i < rows.len() ==> #[trigger] rows[i] < count && ends_its_key(
            columns,
            count,
            rows[i] as int,
        )
    &&& forall|row: usize|
        row < count && #[trigger] ends_its_key(columns, count, row as int) ==> rows.contains(row)
}

/// Each row's key as bytes, by `arrow_row::RowConverter::new` and `convert_columns` over columns of
/// Arrow's 128-bit decimals, large strings and large binaries. It is believed that a converter is
/// made for these types and takes columns as long as each other, that it gives one row for each of
/// theirs, and that two rows have the same bytes where, and only where, they have the same value in
/// every column; what the bytes are is left unsaid.
#[verifier::external_body]
fn key_bytes(columns: &Vec<KeyColumn>, rows: usize) -> (keys: Result<Vec<Vec<u8>>, String>)
    requires
        are_keys(columns@, rows as nat),
    ensures
        keys is Ok,
        keys matches Ok(keys) ==> keys@.len() == rows,
        keys matches Ok(keys) ==> forall|i: int, j: int|
            0 <= i < rows && 0 <= j < rows ==> ((#[trigger] keys@[i])@ == (#[trigger] keys@[j])@)
                == same_key(columns@, i, j),
{
    let columns: Vec<ArrayRef> = columns.iter().map(|column| -> ArrayRef { match column {
        KeyColumn::Numbers(values) => Arc::new(Decimal128Array::from(values.clone())),
        KeyColumn::Texts(values) => Arc::new(LargeStringArray::from_iter_values(values)),
        KeyColumn::Bytes(values) => Arc::new(LargeBinaryArray::from_iter_values(values)),
    } }).collect();
    let fields = columns.iter().map(|array| SortField::new(array.data_type().clone())).collect();
    let rows = RowConverter::new(fields).and_then(|converter| converter.convert_columns(&columns));
    rows.map(|rows| rows.iter().map(|row| row.as_ref().to_vec()).collect())
        .map_err(|fault| fault.to_string())
}

/// The rows a merge keeps of a batch of `rows` rows whose keys are in `columns`: the last row of
/// each key, in their order; `None` where those are all of them. A fault of the conversion to bytes
/// would be handed on: whole key columns have none.
pub fn compact(columns: &Vec<KeyColumn>, rows: usize) -> (kept: Result<
    Option<Vec<usize>>,
    String,
>)
    requires
        are_keys(columns@, rows as nat),
    ensures
        match kept {
            Ok(Some(kept)) => end_their_keys(columns@, rows as nat, kept@) && kept@.len() < rows,
            Ok(None) => forall|row: int|
                0 <= row < rows ==> #[trigger] ends_its_key(columns@, rows as nat, row),
            Err(_) => false,
        },
{
    let keys: Vec<Vec<u8>> = match key_bytes(columns, rows) {
        Ok(keys) => keys,
        Err(fault) => return Err(fault),
    };
    proof {
        assert forall|row: int| 0 <= row < rows implies #[trigger] is_last(keys@, row)
            == ends_its_key(columns@, rows as nat, row) by {
            if is_last(keys@, row) {
                assert forall|later: int| row < later < rows implies !(#[trigger] same_key(
                    columns@,
                    later,
                    row,
                )) by {
                    assert(keys@[later]@ != keys@[row]@);
                }
            }
            if ends_its_key(columns@, rows as nat, row) {
                assert forall|later: int| row < later < rows implies (#[trigger] keys@[later])@
                    != keys@[row]@ by {
                    assert(!same_key(columns@, later, row));
                }
            }
        }
    }
    let kept: Option<Vec<usize>> = last_rows(&keys);
    proof {
        match &kept {
            Some(kept) => {
                assert forall|i: int| 0 <= i < kept@.len() implies #[trigger] kept@[i] < rows
                    && ends_its_key(columns@, rows as nat, kept@[i] as int) by {
                    assert(is_last(keys@, kept@[i] as int));
                }
                assert forall|row: usize|
                    row < rows && #[trigger] ends_its_key(
                        columns@,
                        rows as nat,
                        row as int,
                    ) implies kept@.contains(row) by {
                    assert(is_last(keys@, row as int));
                }
            },
            None => {
                assert forall|row: int| 0 <= row < rows implies #[trigger] ends_its_key(
                    columns@,
                    rows as nat,
                    row,
                ) by {
                    assert(is_last(keys@, row));
                }
            },
        }
    }
    Ok(kept)
}

/// Some row at or after `row` is the last of its key.
proof fn lemma_a_last_row(columns: Seq<KeyColumn>, count: nat, row: int) -> (last: int)
    requires
        0 <= row < count,
    ensures
        row <= last < count,
        ends_its_key(columns, count, last),
        same_key(columns, last, row),
    decreases count - row,
{
    if ends_its_key(columns, count, row) {
        row
    } else {
        let later = choose|later: int|
            row < later < count && #[trigger] same_key(columns, later, row);
        let last = lemma_a_last_row(columns, count, later);
        assert forall|c: int| 0 <= c < columns.len() implies (#[trigger] columns[c]).agrees(
            last,
            row,
        ) by {
            assert(columns[c].agrees(last, later) && columns[c].agrees(later, row));
        }
        last
    }
}

/// Whether `rows` hold a row at or after `row` that has its key.
pub open spec fn stands_for(columns: Seq<KeyColumn>, rows: Seq<usize>, row: int) -> bool {
    exists|i: int|
        0 <= i < rows.len() && (#[trigger] rows[i]) >= row && same_key(
            columns,
            rows[i] as int,
            row,
        )
}

/// Compaction keeps one row of every key, its last, and no key twice.
pub proof fn law_each_key_keeps_its_last_row(
    columns: Seq<KeyColumn>,
    count: nat,
    rows: Seq<usize>,
)
    requires
        end_their_keys(columns, count, rows),
        count <= usize::MAX,
    ensures
        forall|row: int| 0 <= row < count ==> #[trigger] stands_for(columns, rows, row),
        forall|i: int, j: int|
            0 <= i < j < rows.len() ==> !same_key(
                columns,
                (#[trigger] rows[j]) as int,
                (#[trigger] rows[i]) as int,
            ),
{
    assert forall|row: int| 0 <= row < count implies #[trigger] stands_for(
        columns,
        rows,
        row,
    ) by {
        let last = lemma_a_last_row(columns, count, row);
        assert(ends_its_key(columns, count, (last as usize) as int));
        assert(rows.contains(last as usize));
        let i = choose|i: int| 0 <= i < rows.len() && rows[i] == last as usize;
        assert(rows[i] >= row && same_key(columns, rows[i] as int, row));
    }
}

} // verus!
