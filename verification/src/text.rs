//! Text: decimal rendering, byte order, and the pieces messages are built from.

use vstd::prelude::*;
use vstd::string::*;
use vstd::utf8::*;

verus! {

/// `String::push` appends one character.
pub assume_specification[ String::push ](s: &mut String, c: char)
    ensures
        final(s)@ == old(s)@.push(c),
;

/// The decimal digit `d`, which is below ten, as a character.
pub open spec fn digit_char(d: int) -> char {
    (d + 48) as char
}

/// `n` in decimal, without leading zeros.
pub open spec fn dec(n: nat) -> Seq<char>
    decreases n,
{
    if n < 10 {
        seq![digit_char(n as int)]
    } else {
        dec(n / 10).push(digit_char((n % 10) as int))
    }
}

/// `count` zeros.
pub open spec fn zeros(count: int) -> Seq<char> {
    Seq::new(if count < 0 { 0nat } else { count as nat }, |i: int| '0')
}

/// `n` in decimal, with zeros in front up to `width` digits.
pub open spec fn padded_dec(n: nat, width: int) -> Seq<char> {
    zeros(width - dec(n).len()) + dec(n)
}

/// The digit of `d`.
pub fn digit(d: u8) -> (c: char)
    requires
        d < 10,
    ensures
        c == digit_char(d as int),
{
    match d {
        0 => '0',
        1 => '1',
        2 => '2',
        3 => '3',
        4 => '4',
        5 => '5',
        6 => '6',
        7 => '7',
        8 => '8',
        _ => '9',
    }
}

/// Appends `n` in decimal to `out`.
pub fn push_decimal(out: &mut String, n: u128)
    ensures
        final(out)@ == old(out)@ + dec(n as nat),
    decreases n,
{
    if n >= 10 {
        push_decimal(out, n / 10);
    }
    let last: u8 = (n % 10) as u8;
    out.push(digit(last));
    proof {
        assert(out@ =~= old(out)@ + dec(n as nat));
    }
}

/// `n` in decimal.
pub fn decimal(n: u128) -> (text: String)
    ensures
        text@ == dec(n as nat),
{
    let mut text = String::new();
    push_decimal(&mut text, n);
    proof {
        assert(text@ =~= dec(n as nat));
    }
    text
}

/// `n` in decimal, with `-` in front where it is negative.
pub open spec fn signed_dec(n: int) -> Seq<char> {
    if n < 0 {
        seq!['-'] + dec((-n) as nat)
    } else {
        dec(n as nat)
    }
}

/// Appends `n` in decimal to `out`, with `-` in front where it is negative.
pub fn push_signed(out: &mut String, n: i64)
    ensures
        final(out)@ == old(out)@ + signed_dec(n as int),
{
    let wide: i128 = n as i128;
    if wide < 0 {
        out.push('-');
        push_decimal(out, (-wide) as u128);
    } else {
        push_decimal(out, wide as u128);
    }
    proof {
        assert(out@ =~= old(out)@ + signed_dec(n as int));
    }
}

/// How many digits `n` has in decimal.
pub fn decimal_len(n: u128) -> (len: usize)
    ensures
        len == dec(n as nat).len(),
        1 <= len <= 39,
{
    let mut rest: u128 = n;
    let mut len: usize = 1;
    proof {
        lemma_dec_len_bound(n as nat, 39);
    }
    while rest >= 10
        invariant
            1 <= len,
            len + dec(rest as nat).len() == dec(n as nat).len() + 1,
            dec(n as nat).len() <= 39,
        decreases rest,
    {
        proof {
            lemma_dec_len_positive((rest / 10) as nat);
        }
        rest = rest / 10;
        len = len + 1;
    }
    len
}

proof fn lemma_dec_len_positive(n: nat)
    ensures
        dec(n).len() >= 1,
    decreases n,
{
    if n >= 10 {
        lemma_dec_len_positive(n / 10);
    }
}

/// Ten to the power `e`.
pub open spec fn ten_to(e: nat) -> nat
    decreases e,
{
    if e == 0 {
        1
    } else {
        10 * ten_to((e - 1) as nat)
    }
}

/// A number below ten to the `digits` has at most that many digits.
pub proof fn lemma_dec_len(n: nat, digits: nat)
    requires
        1 <= digits,
        n < ten_to(digits),
    ensures
        dec(n).len() <= digits,
    decreases digits,
{
    if n >= 10 {
        assert(digits >= 2) by {
            if digits == 1 {
                assert(ten_to(1) == 10 * ten_to(0));
            }
        }
        assert(ten_to(digits) == 10 * ten_to((digits - 1) as nat));
        lemma_dec_len(n / 10, (digits - 1) as nat);
    }
}

proof fn lemma_dec_len_bound(n: nat, digits: nat)
    requires
        n <= u128::MAX,
        digits == 39,
    ensures
        dec(n).len() <= 39,
{
    assert(ten_to(39) == 1000000000000000000000000000000000000000) by {
        reveal_with_fuel(ten_to, 40);
    }
    lemma_dec_len(n, 39);
}

/// Appends `n` in decimal to `out`, with zeros in front up to `width` digits.
pub fn push_padded(out: &mut String, n: u128, width: usize)
    ensures
        final(out)@ == old(out)@ + padded_dec(n as nat, width as int),
{
    let len: usize = decimal_len(n);
    let mut missing: usize = if len < width { width - len } else { 0 };
    let ghost total = missing as int;
    while missing > 0
        invariant
            0 <= missing <= total,
            out@ == old(out)@ + zeros(total - missing),
        decreases missing,
    {
        out.push('0');
        missing = missing - 1;
        proof {
            assert(out@ =~= old(out)@ + zeros(total - missing));
        }
    }
    push_decimal(out, n);
    proof {
        assert(zeros(total) =~= zeros(width - dec(n as nat).len()));
        assert(out@ =~= old(out)@ + padded_dec(n as nat, width as int));
    }
}

/// The number the decimal digits `digits` write.
pub open spec fn value_of(digits: Seq<char>) -> int
    decreases digits.len(),
{
    if digits.len() == 0 {
        0
    } else {
        10 * value_of(digits.drop_last()) + (digits.last() as int - 48)
    }
}

/// `n` in decimal is made of digits and reads back as `n`.
pub proof fn lemma_dec_reads_back(n: nat)
    ensures
        value_of(dec(n)) == n,
        dec(n).len() >= 1,
        forall|i: int| 0 <= i < dec(n).len() ==> '0' <= #[trigger] dec(n)[i] <= '9',
    decreases n,
{
    if n < 10 {
        assert(dec(n).drop_last() =~= Seq::<char>::empty());
        assert(value_of(dec(n).drop_last()) == 0);
    } else {
        lemma_dec_reads_back(n / 10);
        assert(dec(n).drop_last() =~= dec(n / 10));
        assert forall|i: int| 0 <= i < dec(n).len() implies '0' <= #[trigger] dec(n)[i] <= '9' by {
            if i < dec(n / 10).len() {
                assert(dec(n)[i] == dec(n / 10)[i]);
            }
        }
    }
}

proof fn lemma_leading_zeros(count: int, digits: Seq<char>)
    requires
        digits.len() >= 1,
    ensures
        value_of(zeros(count) + digits) == value_of(digits),
    decreases digits.len(),
{
    let whole = zeros(count) + digits;
    assert(whole.last() == digits.last());
    assert(whole.drop_last() =~= zeros(count) + digits.drop_last());
    if digits.len() == 1 {
        assert(digits.drop_last() =~= Seq::<char>::empty());
        assert(value_of(digits.drop_last()) == 0);
        assert(whole.drop_last() =~= zeros(count));
        lemma_zeros_are_zero(count);
    } else {
        lemma_leading_zeros(count, digits.drop_last());
    }
}

proof fn lemma_zeros_are_zero(count: int)
    ensures
        value_of(zeros(count)) == 0,
    decreases count,
{
    if count > 0 {
        assert(zeros(count).drop_last() =~= zeros(count - 1));
        lemma_zeros_are_zero(count - 1);
    }
}

/// `n` with zeros in front is made of digits and reads back as `n`.
pub proof fn lemma_padded_reads_back(n: nat, width: int)
    ensures
        value_of(padded_dec(n, width)) == n,
        padded_dec(n, width).len() >= width,
        padded_dec(n, width).len() >= 1,
        forall|i: int|
            0 <= i < padded_dec(n, width).len() ==> '0' <= #[trigger] padded_dec(n, width)[i]
                <= '9',
{
    lemma_dec_reads_back(n);
    lemma_leading_zeros(width - dec(n).len(), dec(n));
    assert forall|i: int| 0 <= i < padded_dec(n, width).len() implies '0'
        <= #[trigger] padded_dec(n, width)[i] <= '9' by {
        let front = zeros(width - dec(n).len());
        if i >= front.len() {
            assert(padded_dec(n, width)[i] == dec(n)[i - front.len()]);
        }
    }
}

/// Whether `a` comes before `b`, compared byte by byte, a prefix first.
pub open spec fn bytes_before(a: Seq<u8>, b: Seq<u8>) -> bool
    decreases a.len(),
{
    if b.len() == 0 {
        false
    } else if a.len() == 0 {
        true
    } else {
        a[0] < b[0] || (a[0] == b[0] && bytes_before(a.drop_first(), b.drop_first()))
    }
}

/// Whether the name `a` comes before the name `b`, in the order of their UTF-8 bytes.
pub open spec fn name_before(a: Seq<char>, b: Seq<char>) -> bool {
    bytes_before(encode_utf8(a), encode_utf8(b))
}

/// Whether `left` comes before `right`, compared byte by byte, a prefix first.
pub fn is_before(left: &[u8], right: &[u8]) -> (before: bool)
    ensures
        before == bytes_before(left@, right@),
{
    let ghost l = left@;
    let ghost r = right@;
    let mut at: usize = 0;
    proof {
        assert(l.subrange(0, l.len() as int) =~= l);
        assert(r.subrange(0, r.len() as int) =~= r);
    }
    while at < left.len() && at < right.len() && left[at] == right[at]
        invariant
            l == left@,
            r == right@,
            at <= l.len(),
            at <= r.len(),
            bytes_before(l, r) == bytes_before(
                l.subrange(at as int, l.len() as int),
                r.subrange(at as int, r.len() as int),
            ),
        decreases left.len() - at,
    {
        proof {
            let x = l.subrange(at as int, l.len() as int);
            let y = r.subrange(at as int, r.len() as int);
            assert(x.drop_first() =~= l.subrange(at + 1, l.len() as int));
            assert(y.drop_first() =~= r.subrange(at + 1, r.len() as int));
        }
        at = at + 1;
    }
    if at >= right.len() {
        false
    } else if at >= left.len() {
        true
    } else {
        left[at] < right[at]
    }
}

/// The byte order is irreflexive.
pub proof fn lemma_bytes_before_irreflexive(a: Seq<u8>)
    ensures
        !bytes_before(a, a),
    decreases a.len(),
{
    if a.len() > 0 {
        lemma_bytes_before_irreflexive(a.drop_first());
    }
}

/// The byte order is transitive.
pub proof fn lemma_bytes_before_transitive(a: Seq<u8>, b: Seq<u8>, c: Seq<u8>)
    requires
        bytes_before(a, b),
        bytes_before(b, c),
    ensures
        bytes_before(a, c),
    decreases a.len(),
{
    if a.len() > 0 && a[0] == b[0] && b[0] == c[0] {
        lemma_bytes_before_transitive(a.drop_first(), b.drop_first(), c.drop_first());
    }
}

/// Of two different byte strings, one comes before the other.
pub proof fn lemma_bytes_before_total(a: Seq<u8>, b: Seq<u8>)
    requires
        a != b,
    ensures
        bytes_before(a, b) || bytes_before(b, a),
    decreases a.len(),
{
    if a.len() > 0 && b.len() > 0 {
        if a[0] == b[0] {
            if a.drop_first() == b.drop_first() {
                assert(a =~= seq![a[0]] + a.drop_first());
                assert(b =~= seq![b[0]] + b.drop_first());
            }
            lemma_bytes_before_total(a.drop_first(), b.drop_first());
        }
    } else if a.len() == 0 && b.len() == 0 {
        assert(a =~= b);
    }
}

/// Of two different names, one comes before the other.
pub proof fn lemma_name_before_total(a: Seq<char>, b: Seq<char>)
    requires
        a != b,
    ensures
        name_before(a, b) || name_before(b, a),
{
    broadcast use encode_utf8_decode_utf8;

    assert(decode_utf8(encode_utf8(a)) == a);
    assert(decode_utf8(encode_utf8(b)) == b);
    lemma_bytes_before_total(encode_utf8(a), encode_utf8(b));
}

/// Whether `b` does not come before `a`.
pub open spec fn name_ordered(a: Seq<char>, b: Seq<char>) -> bool {
    !name_before(b, a)
}

/// Whether `b` does not come before `a`.
pub open spec fn bytes_ordered(a: Seq<u8>, b: Seq<u8>) -> bool {
    !bytes_before(b, a)
}

/// The order of byte strings is transitive.
pub proof fn lemma_bytes_ordered_transitive(a: Seq<u8>, b: Seq<u8>, c: Seq<u8>)
    requires
        bytes_ordered(a, b),
        bytes_ordered(b, c),
    ensures
        bytes_ordered(a, c),
{
    if bytes_before(c, a) && a != b {
        lemma_bytes_before_total(a, b);
        lemma_bytes_before_transitive(c, a, b);
    }
}

/// The first byte in which two byte strings differ orders them, and the shorter comes first where
/// the longer only goes on.
pub proof fn law_the_first_different_byte_orders(a: Seq<u8>, b: Seq<u8>, k: int)
    requires
        0 <= k <= a.len(),
        k <= b.len(),
        forall|i: int| 0 <= i < k ==> a[i] == b[i],
        k < a.len() && k < b.len() ==> a[k] != b[k],
    ensures
        bytes_before(a, b) <==> k < b.len() && (k == a.len() || a[k] < b[k]),
    decreases k,
{
    if k > 0 {
        assert(a[0] == b[0]);
        law_the_first_different_byte_orders(a.drop_first(), b.drop_first(), k - 1);
    }
}

/// Of two different names, ordered ones come before each other strictly.
pub proof fn lemma_name_ordered_strict(a: Seq<char>, b: Seq<char>)
    requires
        name_ordered(a, b),
        a != b,
    ensures
        name_before(a, b),
{
    lemma_name_before_total(a, b);
}

/// Whether `order` holds the positions from `lo` up to `hi`, each once, in the order of the names
/// at them.
pub open spec fn orders(names: Seq<String>, order: Seq<usize>, lo: int, hi: int) -> bool {
    &&& order.len() == hi - lo
    &&& order.no_duplicates()
    &&& forall|p: int| 0 <= p < order.len() ==> lo <= #[trigger] order[p] < hi
    &&& forall|k: usize| lo <= k < hi ==> #[trigger] order.contains(k)
    &&& forall|p: int, q: int|
        0 <= p < q < order.len() ==> name_ordered(
            names[#[trigger] order[p] as int]@,
            names[#[trigger] order[q] as int]@,
        )
}

/// Whether the row `a` comes before the row `b` in the order of their keys, and where they are
/// equal in their own.
pub open spec fn row_ordered(keys: Seq<Vec<u8>>, a: usize, b: usize) -> bool {
    bytes_ordered(keys[a as int]@, keys[b as int]@) && (keys[a as int]@ == keys[b as int]@ ==> a
        < b)
}

proof fn lemma_row_ordered_transitive(keys: Seq<Vec<u8>>, a: usize, b: usize, c: usize)
    requires
        row_ordered(keys, a, b),
        row_ordered(keys, b, c),
    ensures
        row_ordered(keys, a, c),
{
    let (x, y, z) = (keys[a as int]@, keys[b as int]@, keys[c as int]@);
    lemma_bytes_ordered_transitive(x, y, z);
    if x == z && x != y {
        lemma_bytes_before_total(x, y);
    }
}

/// Whether `order` holds the positions from `lo` up to `hi`, each once, in the order of the keys
/// at them.
pub open spec fn byte_orders(keys: Seq<Vec<u8>>, order: Seq<usize>, lo: int, hi: int) -> bool {
    &&& order.len() == hi - lo
    &&& order.no_duplicates()
    &&& forall|p: int| 0 <= p < order.len() ==> lo <= #[trigger] order[p] < hi
    &&& forall|k: usize| lo <= k < hi ==> #[trigger] order.contains(k)
    &&& forall|p: int, q: int|
        0 <= p < q < order.len() ==> row_ordered(keys, #[trigger] order[p], #[trigger] order[q])
}

/// `left` and `right`, orders of neighbouring ranges, as one.
fn merge_orders(
    keys: &Vec<Vec<u8>>,
    left: &Vec<usize>,
    right: &Vec<usize>,
    lo: usize,
    mid: usize,
    hi: usize,
) -> (merged: Vec<usize>)
    requires
        lo <= mid <= hi <= keys@.len(),
        byte_orders(keys@, left@, lo as int, mid as int),
        byte_orders(keys@, right@, mid as int, hi as int),
    ensures
        byte_orders(keys@, merged@, lo as int, hi as int),
{
    let ghost n = keys@;
    let mut merged: Vec<usize> = Vec::new();
    let mut i: usize = 0;
    let mut j: usize = 0;
    while i < left.len() || j < right.len()
        invariant
            n == keys@,
            lo <= mid <= hi <= n.len(),
            byte_orders(n, left@, lo as int, mid as int),
            byte_orders(n, right@, mid as int, hi as int),
            i <= left@.len(),
            j <= right@.len(),
            merged@.len() == i + j,
            merged@.no_duplicates(),
            forall|p: int| 0 <= p < merged@.len() ==> lo <= #[trigger] merged@[p] < hi,
            forall|p: int| 0 <= p < i ==> merged@.contains(#[trigger] left@[p]),
            forall|p: int| 0 <= p < j ==> merged@.contains(#[trigger] right@[p]),
            forall|p: int|
                0 <= p < merged@.len() ==> left@.take(i as int).contains(#[trigger] merged@[p])
                    || right@.take(j as int).contains(merged@[p]),
            forall|p: int, q: int|
                0 <= p < q < merged@.len() ==> row_ordered(n, #[trigger] merged@[p], #[trigger] merged@[q]),
            forall|p: int, q: int|
                0 <= p < merged@.len() && i <= q < left@.len() ==> row_ordered(n, #[trigger] merged@[p], #[trigger] left@[q]),
            forall|p: int, q: int|
                0 <= p < merged@.len() && j <= q < right@.len() ==> row_ordered(n, #[trigger] merged@[p], #[trigger] right@[q]),
        decreases left.len() - i + right.len() - j,
    {
        let from_left: bool = if i >= left.len() {
            false
        } else if j >= right.len() {
            true
        } else {
            !is_before(keys[right[j]].as_slice(), keys[left[i]].as_slice())
        };
        let ghost before = merged@;
        if from_left {
            let next: usize = left[i];
            proof {
                assert forall|q: int| j <= q < right@.len() implies row_ordered(n, next, #[trigger] right@[q]) by {
                    if q > j {
                        lemma_row_ordered_transitive(n, next, right@[j as int], right@[q]);
                    }
                }
                assert(!merged@.contains(next)) by {
                    if merged@.contains(next) {
                        let p = choose|p: int| 0 <= p < merged@.len() && merged@[p] == next;
                        if left@.take(i as int).contains(merged@[p]) {
                            let r = choose|r: int|
                                0 <= r < i && left@.take(i as int)[r] == merged@[p];
                            assert(left@[r] == left@[i as int]);
                        }
                    }
                }
                assert(left@.take(i + 1) =~= left@.take(i as int).push(next));
            }
            merged.push(next);
            i = i + 1;
            proof {
                lemma_merge_step(before, next, left@.take(i - 1), left@.take(i as int), right@.take(j as int));
            }
        } else {
            let next: usize = right[j];
            proof {
                if i < left@.len() {
                    lemma_before_is_ordered(n[next as int]@, n[left@[i as int] as int]@);
                    lemma_bytes_before_irreflexive(n[next as int]@);
                }
                assert forall|q: int| i <= q < left@.len() implies row_ordered(n, next, #[trigger] left@[q]) by {
                    if q > i {
                        lemma_row_ordered_transitive(n, next, left@[i as int], left@[q]);
                    }
                }
                assert(!merged@.contains(next)) by {
                    if merged@.contains(next) {
                        let p = choose|p: int| 0 <= p < merged@.len() && merged@[p] == next;
                        if right@.take(j as int).contains(merged@[p]) {
                            let r = choose|r: int|
                                0 <= r < j && right@.take(j as int)[r] == merged@[p];
                            assert(right@[r] == right@[j as int]);
                        }
                    }
                }
                assert(right@.take(j + 1) =~= right@.take(j as int).push(next));
            }
            merged.push(next);
            j = j + 1;
            proof {
                lemma_merge_step(before, next, right@.take(j - 1), right@.take(j as int), left@.take(i as int));
            }
        }
        proof {
            assert(merged@[before.len() as int] == before.push(merged@.last()).last());
            assert forall|p: int| 0 <= p < i implies merged@.contains(#[trigger] left@[p]) by {
                if before.contains(left@[p]) {
                    let r = choose|r: int| 0 <= r < before.len() && before[r] == left@[p];
                    assert(merged@[r] == left@[p]);
                }
            }
            assert forall|p: int| 0 <= p < j implies merged@.contains(#[trigger] right@[p]) by {
                if before.contains(right@[p]) {
                    let r = choose|r: int| 0 <= r < before.len() && before[r] == right@[p];
                    assert(merged@[r] == right@[p]);
                }
            }
        }
    }
    proof {
        assert forall|k: usize| lo <= k < hi implies #[trigger] merged@.contains(k) by {
            if k < mid {
                assert(left@.contains(k));
                let p = choose|p: int| 0 <= p < left@.len() && left@[p] == k;
                assert(merged@.contains(left@[p]));
            } else {
                assert(right@.contains(k));
                let p = choose|p: int| 0 <= p < right@.len() && right@[p] == k;
                assert(merged@.contains(right@[p]));
            }
        }
    }
    merged
}

proof fn lemma_before_is_ordered(a: Seq<u8>, b: Seq<u8>)
    requires
        bytes_before(a, b),
    ensures
        bytes_ordered(a, b),
{
    if bytes_before(b, a) {
        lemma_bytes_before_transitive(a, b, a);
        lemma_bytes_before_irreflexive(a);
    }
}

proof fn lemma_merge_step(
    before: Seq<usize>,
    next: usize,
    taken: Seq<usize>,
    longer: Seq<usize>,
    other: Seq<usize>,
)
    requires
        longer == taken.push(next),
        forall|p: int|
            0 <= p < before.len() ==> taken.contains(#[trigger] before[p]) || other.contains(
                before[p],
            ),
    ensures
        forall|p: int|
            0 <= p < before.push(next).len() ==> longer.contains(#[trigger] before.push(next)[p])
                || other.contains(before.push(next)[p]),
{
    let after = before.push(next);
    assert forall|p: int| 0 <= p < after.len() implies longer.contains(#[trigger] after[p])
        || other.contains(after[p]) by {
        if p < before.len() {
            assert(after[p] == before[p]);
            if taken.contains(before[p]) {
                let r = choose|r: int| 0 <= r < taken.len() && taken[r] == before[p];
                assert(longer[r] == before[p]);
            }
        } else {
            assert(longer[taken.len() as int] == next);
        }
    }
}

/// The positions from `lo` up to `hi`, in the order of the keys at them.
fn order_range(keys: &Vec<Vec<u8>>, lo: usize, hi: usize) -> (order: Vec<usize>)
    requires
        lo <= hi <= keys@.len(),
    ensures
        byte_orders(keys@, order@, lo as int, hi as int),
    decreases hi - lo,
{
    if hi - lo <= 1 {
        let mut order: Vec<usize> = Vec::new();
        if lo < hi {
            order.push(lo);
            proof {
                assert forall|k: usize| lo <= k < hi implies #[trigger] order@.contains(k) by {
                    assert(order@[0] == k);
                }
            }
        }
        return order;
    }
    let mid: usize = lo + (hi - lo) / 2;
    let left: Vec<usize> = order_range(keys, lo, mid);
    let right: Vec<usize> = order_range(keys, mid, hi);
    merge_orders(keys, &left, &right, lo, mid, hi)
}

/// The positions of `keys`, in the order of the keys at them.
pub fn order_of_bytes(keys: &Vec<Vec<u8>>) -> (order: Vec<usize>)
    ensures
        byte_orders(keys@, order@, 0, keys@.len() as int),
{
    order_range(keys, 0, keys.len())
}

/// The UTF-8 bytes of `text`.
pub fn bytes_of(text: &str) -> (bytes: Vec<u8>)
    ensures
        bytes@ == encode_utf8(text@),
{
    let source: &[u8] = text.as_bytes();
    let mut bytes: Vec<u8> = Vec::new();
    let mut at: usize = 0;
    while at < source.len()
        invariant
            at <= source@.len(),
            bytes@ == source@.take(at as int),
        decreases source@.len() - at,
    {
        bytes.push(source[at]);
        at = at + 1;
        assert(bytes@ =~= source@.take(at as int));
    }
    assert(source@.take(at as int) =~= source@);
    bytes
}

/// The positions of `names`, in the order of the names at them.
pub fn order_of(names: &Vec<String>) -> (order: Vec<usize>)
    ensures
        orders(names@, order@, 0, names@.len() as int),
{
    let mut keys: Vec<Vec<u8>> = Vec::new();
    let mut at: usize = 0;
    while at < names.len()
        invariant
            at <= names@.len(),
            keys@.len() == at,
            forall|i: int| 0 <= i < at ==> (#[trigger] keys@[i])@ == encode_utf8(names@[i]@),
        decreases names@.len() - at,
    {
        keys.push(bytes_of(names[at].as_str()));
        at = at + 1;
    }
    let order: Vec<usize> = order_of_bytes(&keys);
    assert forall|p: int, q: int| 0 <= p < q < order@.len() implies name_ordered(
        names@[#[trigger] order@[p] as int]@,
        names@[#[trigger] order@[q] as int]@,
    ) by {
        assert(row_ordered(keys@, order@[p], order@[q]));
    }
    order
}

/// The characters of `text`.
pub fn chars_of(text: &str) -> (chars: Vec<char>)
    ensures
        chars@ == text@,
{
    let mut chars: Vec<char> = Vec::new();
    for c in it: text.chars()
        invariant
            chars@ =~= it.seq().take(it.index() as int),
            it.seq() == text@,
    {
        chars.push(c);
    }
    proof {
        assert(chars@ =~= text@);
    }
    chars
}

/// `text` as Rust's `Debug` writes a string: quoted, with escapes.
pub uninterp spec fn debug_form(text: Seq<char>) -> Seq<char>;

/// `str`'s `Debug` rendering: quoted, with the escapes Rust gives it; which characters it escapes
/// is left to the name.
#[verifier::external_body]
pub(crate) fn debug_text(text: &str) -> (quoted: String)
    ensures
        quoted@ == debug_form(text@),
{
    format!("{text:?}")
}

/// A text, where there is one.
pub open spec fn text_view(text: Option<String>) -> Option<Seq<char>> {
    match text {
        Some(text) => Some(text@),
        None => None,
    }
}

/// A number's decimal text reads back as it, behind `-` where it is negative, and has no zero in
/// front but for zero itself.
pub proof fn law_decimals_read_back(n: int)
    ensures
        n >= 0 ==> value_of(signed_dec(n)) == n,
        n < 0 ==> signed_dec(n).len() > 1 && signed_dec(n)[0] == '-' && value_of(
            signed_dec(n).skip(1),
        ) == -n,
        n >= 10 ==> signed_dec(n)[0] != '0',
{
    if n < 0 {
        lemma_dec_reads_back((-n) as nat);
        assert(signed_dec(n).skip(1) =~= dec((-n) as nat));
        lemma_some_digit((-n) as nat);
    } else {
        lemma_dec_reads_back(n as nat);
        lemma_some_digit(n as nat);
    }
}

proof fn lemma_some_digit(n: nat)
    ensures
        dec(n).len() > 0,
        n >= 10 ==> dec(n)[0] != '0',
        n > 0 ==> dec(n)[0] != '0',
    decreases n,
{
    if n >= 10 {
        lemma_some_digit(n / 10);
        assert(dec(n)[0] == dec(n / 10)[0]);
    }
}

} // verus!
