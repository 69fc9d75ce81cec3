//! The segment container, one Arrow IPC file per recorded batch: what a file declares of itself
//! is held against the file before a decoder may allocate from it.

use crate::text::{dec, push_decimal, push_signed, signed_dec};
use vstd::prelude::*;
use vstd::string::*;

verus! {

/// The longest footer a segment may have: an honest one holds one schema and one block.
pub const MAX_SEGMENT_FOOTER_BYTES: u64 = 16777216;

/// How many bytes the trailer of an Arrow IPC file has.
pub const TRAILER_BYTES: u64 = 10;

/// The least bytes an Arrow IPC file has: its leading magic and its trailer.
pub const SMALLEST_FILE: u64 = 18;

/// How much declared reading may exceed the bytes a file has allocated before it is presumed
/// sparse.
pub const ALLOCATION_HEADROOM: u64 = 4;

/// What the kernel says of a segment's file.
#[derive(Clone, Copy, Debug, PartialEq, Eq, Structural)]
pub struct SegmentStat {
    pub len: u64,
    /// The bytes the file has allocated.
    pub allocated: u64,
    /// When the contents changed last, in seconds and nanoseconds.
    pub mtime: i64,
    pub mtime_nsec: i64,
    /// When the file changed last in any way, in seconds and nanoseconds.
    pub ctime: i64,
    pub ctime_nsec: i64,
}

impl SegmentStat {
    /// Whether `after` shows that the file changed since: its length or a timestamp moved.
    pub open spec fn differs(self, after: SegmentStat) -> bool {
        ||| self.len != after.len
        ||| self.mtime != after.mtime
        ||| self.mtime_nsec != after.mtime_nsec
        ||| self.ctime != after.ctime
        ||| self.ctime_nsec != after.ctime_nsec
    }

    /// Whether `after` shows that the file changed since. The status time is compared too: no
    /// unprivileged writer can set it, and it moves with every write.
    pub fn changed(&self, after: &SegmentStat) -> (changed: bool)
        ensures
            changed == self.differs(*after),
    {
        self.len != after.len || self.mtime != after.mtime || self.mtime_nsec != after.mtime_nsec
            || self.ctime != after.ctime || self.ctime_nsec != after.ctime_nsec
    }
}

/// A block a footer declares: its offset, and the lengths of its metadata and its body.
pub type Block = (i64, i32, i64);

/// Why a segment's declared layout is refused.
#[derive(Debug)]
pub enum LayoutFault {
    /// The file is shorter than any Arrow IPC file.
    TooSmall { file_len: u64 },
    /// The trailer is not that of an Arrow IPC file.
    Trailer { error: String },
    /// The footer does not fit the file.
    FooterPastFile { footer_len: u64, file_len: u64 },
    /// The footer is longer than an honest one.
    FooterOverCap { footer_len: u64 },
    /// The footer does not verify.
    Footer { error: String },
    /// A block does not fit the file.
    BlockOutside { block: Block, file_len: u64 },
    /// The blocks together are more than twice the file.
    Overlapping { total: u64, file_len: u64 },
    /// The blocks together are far more than the file has allocated.
    Sparse { total: u64, allocated: u64 },
    /// The file changed meanwhile.
    Changed,
}

impl LayoutFault {
    /// The fault in words.
    pub open spec fn text(self) -> Seq<char> {
        match self {
            LayoutFault::TooSmall { file_len } => "segment is "@ + dec(file_len as nat)
                + " bytes — smaller than the smallest possible Arrow IPC file"@,
            LayoutFault::Trailer { error } => error@,
            LayoutFault::FooterPastFile { footer_len, file_len } => "segment declares a "@ + dec(
                footer_len as nat,
            ) + "-byte footer inside a "@ + dec(file_len as nat)
                + "-byte file — crafted lengths refuse before the decoder can allocate from them"@,
            LayoutFault::FooterOverCap { footer_len } => "segment declares a "@ + dec(
                footer_len as nat,
            ) + "-byte footer, over the "@ + dec(MAX_SEGMENT_FOOTER_BYTES as nat)
                + "-byte footer cap — an honest footer carries one schema and one block descriptor and measures in kibibytes"@,
            LayoutFault::Footer { error } => error@,
            LayoutFault::BlockOutside { block, file_len } => "segment declares a block at offset "@
                + signed_dec(block.0 as int) + " spanning metadata "@ + signed_dec(block.1 as int)
                + " + body "@ + signed_dec(block.2 as int) + " bytes — outside its own "@ + dec(
                file_len as nat,
            ) + "-byte file; crafted lengths refuse before the decoder can allocate them"@,
            LayoutFault::Overlapping { total, file_len } =>
                "segment declares block extents summing to "@ + dec(total as nat)
                + " bytes against its own "@ + dec(file_len as nat)
                + "-byte file — overlapping extents would multiply recovery's read work past any honest shape (one block per segment)"@,
            LayoutFault::Sparse { total, allocated } =>
                "segment declares block extents summing to "@ + dec(total as nat)
                + " bytes against only "@ + dec(allocated as nat)
                + " bytes actually allocated — a sparse file lying about its own size; reading a hole succeeds, so the declared buffer would commit resident before any EOF could refuse it"@,
            LayoutFault::Changed =>
                "segment changed under the layout pre-pass (size or timestamps moved) — degrading rather than decoding a footer nobody checked"@,
        }
    }

    /// The fault in words.
    pub fn message(&self) -> (message: String)
        ensures
            message@ == self.text(),
    {
        let mut message = String::new();
        match self {
            LayoutFault::TooSmall { file_len } => {
                message.append("segment is ");
                push_decimal(&mut message, *file_len as u128);
                message.append(" bytes — smaller than the smallest possible Arrow IPC file");
            },
            LayoutFault::Trailer { error } => {
                message.append(error.as_str());
            },
            LayoutFault::FooterPastFile { footer_len, file_len } => {
                message.append("segment declares a ");
                push_decimal(&mut message, *footer_len as u128);
                message.append("-byte footer inside a ");
                push_decimal(&mut message, *file_len as u128);
                message.append("-byte file — crafted lengths refuse before the decoder can allocate from them");
            },
            LayoutFault::FooterOverCap { footer_len } => {
                message.append("segment declares a ");
                push_decimal(&mut message, *footer_len as u128);
                message.append("-byte footer, over the ");
                push_decimal(&mut message, MAX_SEGMENT_FOOTER_BYTES as u128);
                message.append("-byte footer cap — an honest footer carries one schema and one block descriptor and measures in kibibytes");
            },
            LayoutFault::Footer { error } => {
                message.append(error.as_str());
            },
            LayoutFault::BlockOutside { block, file_len } => {
                message.append("segment declares a block at offset ");
                push_signed(&mut message, block.0);
                message.append(" spanning metadata ");
                push_signed(&mut message, block.1 as i64);
                message.append(" + body ");
                push_signed(&mut message, block.2);
                message.append(" bytes — outside its own ");
                push_decimal(&mut message, *file_len as u128);
                message.append("-byte file; crafted lengths refuse before the decoder can allocate them");
            },
            LayoutFault::Overlapping { total, file_len } => {
                message.append("segment declares block extents summing to ");
                push_decimal(&mut message, *total as u128);
                message.append(" bytes against its own ");
                push_decimal(&mut message, *file_len as u128);
                message.append("-byte file — overlapping extents would multiply recovery's read work past any honest shape (one block per segment)");
            },
            LayoutFault::Sparse { total, allocated } => {
                message.append("segment declares block extents summing to ");
                push_decimal(&mut message, *total as u128);
                message.append(" bytes against only ");
                push_decimal(&mut message, *allocated as u128);
                message.append(" bytes actually allocated — a sparse file lying about its own size; reading a hole succeeds, so the declared buffer would commit resident before any EOF could refuse it");
            },
            LayoutFault::Changed => {
                message.append("segment changed under the layout pre-pass (size or timestamps moved) — degrading rather than decoding a footer nobody checked");
            },
        }
        proof {
            assert(message@ =~= self.text());
        }
        message
    }
}

/// Whether `block` lies within a file of `file_len` bytes.
pub open spec fn block_fits(file_len: u64, block: Block) -> bool {
    &&& block.0 >= 0
    &&& block.1 >= 0
    &&& block.2 >= 0
    &&& block.0 + block.1 + block.2 <= file_len
}

/// The bytes the first `n` blocks span together.
pub open spec fn extents(blocks: Seq<Block>, n: int) -> int
    decreases n,
{
    if n <= 0 {
        0
    } else {
        extents(blocks, n - 1) + blocks[n - 1].1 + blocks[n - 1].2
    }
}

/// `n`, or the greatest `u64` where it is more.
pub open spec fn saturated(n: int) -> int {
    if n > u64::MAX {
        u64::MAX as int
    } else {
        n
    }
}

/// Why `blocks` do not lie within their file: the first that does not, else their sum against the
/// file's length, else against what it has allocated.
pub open spec fn extents_fault(file_len: u64, allocated: u64, blocks: Seq<Block>) -> Option<
    LayoutFault,
> {
    if exists|i: int| 0 <= i < blocks.len() && !#[trigger] block_fits(file_len, blocks[i]) {
        let i = choose|i: int|
            0 <= i < blocks.len() && !#[trigger] block_fits(file_len, blocks[i]) && forall|k: int|
                0 <= k < i ==> #[trigger] block_fits(file_len, blocks[k]);
        Some(LayoutFault::BlockOutside { block: blocks[i], file_len })
    } else {
        let total = saturated(extents(blocks, blocks.len() as int));
        if total > saturated(file_len * 2) {
            Some(LayoutFault::Overlapping { total: total as u64, file_len })
        } else if total > saturated(allocated * ALLOCATION_HEADROOM) {
            Some(LayoutFault::Sparse { total: total as u64, allocated })
        } else {
            None
        }
    }
}

/// `a * b`, or the greatest `u64` where it is more.
fn saturating_product(a: u64, b: u64) -> (product: u64)
    ensures
        product == saturated(a * b),
{
    match a.checked_mul(b) {
        Some(product) => product,
        None => u64::MAX,
    }
}

/// The block-extent rules: every block lies within the file that declares it, their sum is at
/// most twice the file, and at most a generous multiple of what the file has allocated.
///
/// An honest segment declares one block within a dense file. Without the bound on the sum, many
/// blocks over one file would multiply the reading of it; without that on what is allocated, a
/// sparse file could claim any length.
pub fn extents_within_file(file_len: u64, allocated: u64, blocks: &Vec<Block>) -> (checked: Result<
    (),
    LayoutFault,
>)
    ensures
        match checked {
            Ok(_) => extents_fault(file_len, allocated, blocks@) is None,
            Err(fault) => extents_fault(file_len, allocated, blocks@) == Some(fault),
        },
{
    let mut total: u64 = 0;
    let mut i: usize = 0;
    while i < blocks.len()
        invariant
            i <= blocks@.len(),
            forall|k: int| 0 <= k < i ==> #[trigger] block_fits(file_len, blocks@[k]),
            extents(blocks@, i as int) >= 0,
            total == saturated(extents(blocks@, i as int)),
        decreases blocks.len() - i,
    {
        let (offset, meta, body): (i64, i32, i64) = blocks[i];
        let fits: bool = offset >= 0 && meta >= 0 && body >= 0 && offset as u128 + meta as u128
            + body as u128 <= file_len as u128;
        assert(fits == block_fits(file_len, blocks@[i as int]));
        if !fits {
            proof {
                let j = choose|j: int|
                    0 <= j < blocks@.len() && !#[trigger] block_fits(file_len, blocks@[j])
                        && forall|k: int|
                        0 <= k < j ==> #[trigger] block_fits(file_len, blocks@[k]);
                assert(!block_fits(file_len, blocks@[i as int]));
                assert(i == j);
            }
            return Err(LayoutFault::BlockOutside { block: (offset, meta, body), file_len });
        }
        let extent: u64 = meta as u64 + body as u64;
        total = match total.checked_add(extent) {
            Some(sum) => sum,
            None => u64::MAX,
        };
        i = i + 1;
    }
    if total > saturating_product(file_len, 2) {
        return Err(LayoutFault::Overlapping { total, file_len });
    }
    if total > saturating_product(allocated, ALLOCATION_HEADROOM) {
        return Err(LayoutFault::Sparse { total, allocated });
    }
    Ok(())
}

/// The bytes `blocks` span together, one of them set aside.
proof fn lemma_extents_without(blocks: Seq<Block>, at: int, n: int)
    requires
        0 <= at < n <= blocks.len(),
    ensures
        extents(blocks, n) == extents(blocks.remove(at), n - 1) + blocks[at].1 + blocks[at].2,
    decreases n,
{
    let rest = blocks.remove(at);
    if n - 1 > at {
        lemma_extents_without(blocks, at, n - 1);
        assert(rest[n - 2] == blocks[n - 1]);
    } else {
        lemma_extents_alike(blocks, rest, at);
    }
}

proof fn lemma_extents_alike(one: Seq<Block>, other: Seq<Block>, n: int)
    requires
        0 <= n <= one.len(),
        n <= other.len(),
        forall|i: int| 0 <= i < n ==> one[i] == other[i],
    ensures
        extents(one, n) == extents(other, n),
    decreases n,
{
    if n > 0 {
        lemma_extents_alike(one, other, n - 1);
    }
}

proof fn lemma_extents_positive(file_len: u64, blocks: Seq<Block>, n: int)
    requires
        0 <= n <= blocks.len(),
        forall|i: int| 0 <= i < blocks.len() ==> #[trigger] block_fits(file_len, blocks[i]),
    ensures
        extents(blocks, n) >= 0,
    decreases n,
{
    if n > 0 {
        lemma_extents_positive(file_len, blocks, n - 1);
        assert(block_fits(file_len, blocks[n - 1]));
    }
}

/// Some of the blocks, in any order, span no more than all of them.
proof fn lemma_fewer_extents(file_len: u64, blocks: Seq<Block>, some: Seq<Block>)
    requires
        forall|i: int| 0 <= i < blocks.len() ==> #[trigger] block_fits(file_len, blocks[i]),
        some.to_multiset().subset_of(blocks.to_multiset()),
    ensures
        extents(some, some.len() as int) <= extents(blocks, blocks.len() as int),
        forall|i: int| 0 <= i < some.len() ==> #[trigger] block_fits(file_len, some[i]),
    decreases some.len(),
{
    broadcast use vstd::seq_lib::group_to_multiset_ensures;

    if some.len() == 0 {
        lemma_extents_positive(file_len, blocks, blocks.len() as int);
    } else {
        let last = some.last();
        let fewer = some.drop_last();
        assert(some =~= fewer.push(last));
        assert(some.to_multiset().count(last) > 0);
        assert(blocks.to_multiset().count(last) > 0);
        assert(blocks.contains(last));
        let at = choose|at: int| 0 <= at < blocks.len() && blocks[at] == last;
        let rest = blocks.remove(at);
        assert(rest.to_multiset() =~= blocks.to_multiset().remove(last));
        assert(fewer.to_multiset() =~= some.to_multiset().remove(last));
        assert(fewer.to_multiset().subset_of(rest.to_multiset()));
        assert forall|i: int| 0 <= i < rest.len() implies #[trigger] block_fits(
            file_len,
            rest[i],
        ) by {
            let from = if i < at {
                i
            } else {
                i + 1
            };
            assert(rest[i] == blocks[from]);
            assert(block_fits(file_len, blocks[from]));
        }
        lemma_fewer_extents(file_len, rest, fewer);
        lemma_extents_without(blocks, at, blocks.len() as int);
        lemma_extents_alike(some, fewer, fewer.len() as int);
        assert(block_fits(file_len, blocks[at]));
        assert forall|i: int| 0 <= i < some.len() implies #[trigger] block_fits(
            file_len,
            some[i],
        ) by {
            if i < fewer.len() {
                assert(some[i] == fewer[i]);
                assert(block_fits(file_len, fewer[i]));
            }
        }
    }
}

/// A layout that is passed stays passed: whatever the order of its blocks, with some of them left
/// out, in a longer file, and where more is allocated.
pub proof fn law_passed_layouts_stay_passed(
    file_len: u64,
    allocated: u64,
    blocks: Seq<Block>,
    longer: u64,
    more: u64,
    some: Seq<Block>,
)
    requires
        extents_fault(file_len, allocated, blocks) is None,
        file_len <= longer,
        allocated <= more,
        some.to_multiset().subset_of(blocks.to_multiset()),
    ensures
        extents_fault(longer, more, some) is None,
{
    lemma_fewer_extents(file_len, blocks, some);
    lemma_extents_positive(file_len, some, some.len() as int);
    assert forall|i: int| 0 <= i < some.len() implies #[trigger] block_fits(longer, some[i]) by {
        assert(block_fits(file_len, some[i]));
    }
}

/// The footer length a trailer holds: its first four bytes as a little-endian `i32`.
pub open spec fn trailer_length(trailer: Seq<u8>) -> int {
    let unsigned = trailer[0] + 256 * trailer[1] + 65536 * trailer[2] + 16777216 * trailer[3];
    if unsigned >= 2147483648 {
        unsigned - 4294967296
    } else {
        unsigned
    }
}

/// Whether a trailer ends in `ARROW1`.
pub open spec fn has_magic(trailer: Seq<u8>) -> bool {
    trailer.skip(4) == seq![65u8, 82u8, 82u8, 79u8, 87u8, 49u8]
}

/// `arrow::ipc::reader::read_footer_length`: the length the trailer holds where it ends in the
/// magic and the length is not negative, and otherwise an error that says which it is not.
#[verifier::external_body]
fn read_trailer(trailer: [u8; 10]) -> (read: Result<usize, String>)
    ensures
        match read {
            Ok(len) => has_magic(trailer@) && trailer_length(trailer@) == len,
            Err(error) => if !has_magic(trailer@) {
                error@ == "Parser error: Arrow file does not contain correct footer"@
            } else {
                trailer_length(trailer@) < 0 && error@ == "Parser error: Invalid footer length: "@
                    + signed_dec(trailer_length(trailer@))
            },
        },
{
    arrow::ipc::reader::read_footer_length(trailer).map_err(|error| error.to_string())
}

/// The dictionary blocks and the record-batch blocks of the footer that `bytes` verify as, or
/// why they do not.
pub uninterp spec fn footer_blocks(bytes: Seq<u8>) -> Result<(Seq<Block>, Seq<Block>), Seq<char>>;

/// `arrow::ipc::root_as_footer`, and the blocks the footer's accessors give: what they are of
/// given bytes is left to the name.
#[verifier::external_body]
fn read_footer(bytes: &[u8]) -> (read: Result<(Vec<Block>, Vec<Block>), String>)
    ensures
        match read {
            Ok(blocks) => footer_blocks(bytes@) == Ok::<(Seq<Block>, Seq<Block>), Seq<char>>(
                (blocks.0@, blocks.1@),
            ),
            Err(error) => footer_blocks(bytes@) == Err::<(Seq<Block>, Seq<Block>), Seq<char>>(
                error@,
            ),
        },
{
    let footer = arrow::ipc::root_as_footer(bytes).map_err(|error| error.to_string())?;
    let plain = |block: &arrow::ipc::Block| (block.offset(), block.metaDataLength(), block.bodyLength());
    let dictionaries = footer.dictionaries().map(|blocks| blocks.iter().map(plain).collect());
    let batches = footer.recordBatches().map(|blocks| blocks.iter().map(plain).collect());
    Ok((dictionaries.unwrap_or_default(), batches.unwrap_or_default()))
}

/// Whether a file of `file_len` bytes is long enough to have a trailer.
pub fn trailer_fits(file_len: u64) -> (fits: Result<(), LayoutFault>)
    ensures
        match fits {
            Ok(_) => file_len >= SMALLEST_FILE,
            Err(fault) => file_len < SMALLEST_FILE && fault == (LayoutFault::TooSmall { file_len }),
        },
{
    if file_len < SMALLEST_FILE {
        return Err(LayoutFault::TooSmall { file_len });
    }
    Ok(())
}

/// What a file of `file_len` bytes that ends in `trailer` declares its footer to be.
pub open spec fn footer_fault(file_len: u64, trailer: Seq<u8>, fault: LayoutFault) -> bool {
    if file_len < SMALLEST_FILE {
        fault == (LayoutFault::TooSmall { file_len })
    } else if !has_magic(trailer) {
        fault is Trailer && fault.text()
            == "Parser error: Arrow file does not contain correct footer"@
    } else if trailer_length(trailer) < 0 {
        fault is Trailer && fault.text() == "Parser error: Invalid footer length: "@ + signed_dec(
            trailer_length(trailer),
        )
    } else if trailer_length(trailer) > file_len - TRAILER_BYTES {
        fault == (LayoutFault::FooterPastFile {
            footer_len: trailer_length(trailer) as u64,
            file_len,
        })
    } else {
        trailer_length(trailer) > MAX_SEGMENT_FOOTER_BYTES && fault == (
        LayoutFault::FooterOverCap { footer_len: trailer_length(trailer) as u64 })
    }
}

/// Whether the footer that `trailer` declares may be read: it lies within the file and the cap.
pub open spec fn footer_declared(file_len: u64, trailer: Seq<u8>) -> bool {
    &&& file_len >= SMALLEST_FILE
    &&& has_magic(trailer)
    &&& 0 <= trailer_length(trailer) <= file_len - TRAILER_BYTES
    &&& trailer_length(trailer) <= MAX_SEGMENT_FOOTER_BYTES
}

/// The length of the footer that a file of `file_len` bytes ending in `trailer` declares, where
/// it may be read.
pub fn declared_footer(file_len: u64, trailer: [u8; 10]) -> (declared: Result<u64, LayoutFault>)
    ensures
        match declared {
            Ok(len) => footer_declared(file_len, trailer@) && len == trailer_length(trailer@),
            Err(fault) => !footer_declared(file_len, trailer@) && footer_fault(
                file_len,
                trailer@,
                fault,
            ),
        },
{
    match trailer_fits(file_len) {
        Ok(_) => {},
        Err(fault) => {
            return Err(fault);
        },
    }
    let footer_len: u64 = match read_trailer(trailer) {
        Ok(len) => len as u64,
        Err(error) => {
            return Err(LayoutFault::Trailer { error });
        },
    };
    if footer_len > file_len - TRAILER_BYTES {
        return Err(LayoutFault::FooterPastFile { footer_len, file_len });
    }
    if footer_len > MAX_SEGMENT_FOOTER_BYTES {
        return Err(LayoutFault::FooterOverCap { footer_len });
    }
    Ok(footer_len)
}

/// Why the layout that `declared` blocks make of a file is refused, the file being `before` and
/// `after` as these say; `None` where it is not.
pub open spec fn layout_fault(
    before: SegmentStat,
    declared: Result<(Seq<Block>, Seq<Block>), Seq<char>>,
    after: SegmentStat,
    fault: Option<LayoutFault>,
) -> bool {
    match declared {
        Err(error) => match fault {
            Some(LayoutFault::Footer { error: of }) => of@ == error,
            _ => false,
        },
        Ok(blocks) => match extents_fault(before.len, before.allocated, blocks.0 + blocks.1) {
            Some(outside) => fault == Some(outside),
            None => if before.differs(after) {
                fault == Some(LayoutFault::Changed)
            } else {
                fault is None
            },
        },
    }
}

/// Holds the blocks a footer declares against the file, which is `before` as it was when reading
/// began and `after` as it is now.
pub fn check_layout(
    before: &SegmentStat,
    declared: Result<(Vec<Block>, Vec<Block>), String>,
    after: &SegmentStat,
) -> (checked: Result<(), LayoutFault>)
    ensures
        layout_fault(
            *before,
            match declared {
                Ok(blocks) => Ok((blocks.0@, blocks.1@)),
                Err(error) => Err(error@),
            },
            *after,
            match checked {
                Ok(_) => None,
                Err(fault) => Some(fault),
            },
        ),
{
    let (dictionaries, batches): (Vec<Block>, Vec<Block>) = match declared {
        Ok(blocks) => blocks,
        Err(error) => {
            return Err(LayoutFault::Footer { error });
        },
    };
    let ghost all = dictionaries@ + batches@;
    let mut blocks: Vec<Block> = dictionaries;
    let mut batches: Vec<Block> = batches;
    blocks.append(&mut batches);
    assert(blocks@ =~= all);
    match extents_within_file(before.len, before.allocated, &blocks) {
        Ok(_) => {},
        Err(fault) => {
            return Err(fault);
        },
    }
    if before.changed(after) {
        return Err(LayoutFault::Changed);
    }
    Ok(())
}

/// Refuses a segment whose declared layout exceeds its own file: its trailer and its footer, the
/// file being `before` as it was when they were read and `after` as it is now.
///
/// A decoder allocates what a footer declares, and an allocation that cannot be met ends the
/// process. A refusal costs extracting the source again, and never data.
pub fn refuse_overdeclared_segment_layout(
    before: &SegmentStat,
    trailer: [u8; 10],
    footer: &[u8],
    after: &SegmentStat,
) -> (checked: Result<(), LayoutFault>)
    requires
        footer_declared(before.len, trailer@) ==> footer@.len() == trailer_length(trailer@),
    ensures
        if footer_declared(before.len, trailer@) {
            layout_fault(
                *before,
                footer_blocks(footer@),
                *after,
                match checked {
                    Ok(_) => None,
                    Err(fault) => Some(fault),
                },
            )
        } else {
            match checked {
                Ok(_) => false,
                Err(fault) => footer_fault(before.len, trailer@, fault),
            }
        },
{
    match declared_footer(before.len, trailer) {
        Ok(_) => check_layout(before, read_footer(footer), after),
        Err(fault) => Err(fault),
    }
}

/// The text of a panic whose payload is a borrowed text, an owned one, or neither.
pub fn panic_text<'a>(borrowed: Option<&'a str>, owned: Option<&'a String>) -> (text: &'a str)
    ensures
        match (borrowed, owned) {
            (Some(borrowed), _) => text@ == borrowed@,
            (None, Some(owned)) => text@ == owned@,
            (None, None) => text@ == "<non-text panic payload>"@,
        },
{
    match borrowed {
        Some(borrowed) => borrowed,
        None => match owned {
            Some(owned) => owned.as_str(),
            None => "<non-text panic payload>",
        },
    }
}

/// What decoding gives, where `caught` is what it returned or the text it panicked with: a panic
/// on a segment's bytes is damage like any other.
pub fn caught_decode<T>(caught: Result<Result<T, String>, &str>) -> (decoded: Result<T, String>)
    ensures
        match caught {
            Ok(returned) => decoded == returned,
            Err(text) => match decoded {
                Ok(_) => false,
                Err(error) => error@ == "the Arrow IPC decoder panicked on the WAL segment: "@
                    + text@,
            },
        },
{
    match caught {
        Ok(returned) => returned,
        Err(text) => {
            let mut error = String::new();
            error.append("the Arrow IPC decoder panicked on the WAL segment: ");
            error.append(text);
            proof {
                assert(error@ =~= "the Arrow IPC decoder panicked on the WAL segment: "@ + text@);
            }
            Err(error)
        },
    }
}

/// Why a decoded batch is none a connector could have handed over.
#[derive(Debug)]
pub enum BatchFault {
    /// It has more rows than a batch may.
    TooManyRows { rows: u64, ceiling: u64 },
    /// Its schema breaks the rules on field names, in these words.
    Fields { error: String },
}

impl BatchFault {
    /// The fault in words.
    pub open spec fn text(self) -> Seq<char> {
        match self {
            BatchFault::TooManyRows { rows, ceiling } => "segment batch carries "@ + dec(
                rows as nat,
            ) + " rows, over the "@ + dec(ceiling as nat) + "-row batch ceiling"@,
            BatchFault::Fields { error } => error@,
        }
    }

    /// The fault in words.
    pub fn message(&self) -> (message: String)
        ensures
            message@ == self.text(),
    {
        let mut message = String::new();
        match self {
            BatchFault::TooManyRows { rows, ceiling } => {
                message.append("segment batch carries ");
                push_decimal(&mut message, *rows as u128);
                message.append(" rows, over the ");
                push_decimal(&mut message, *ceiling as u128);
                message.append("-row batch ceiling");
            },
            BatchFault::Fields { error } => {
                message.append(error.as_str());
            },
        }
        proof {
            assert(message@ =~= self.text());
        }
        message
    }
}

/// Judges a decoded batch of `rows` rows by the rules batches off the wire are held to, where
/// `walked` is what the walk over its field names found.
pub fn admit_batch(rows: u64, ceiling: u64, walked: Result<(), String>) -> (admitted: Result<
    (),
    BatchFault,
>)
    ensures
        match admitted {
            Ok(_) => rows <= ceiling && walked is Ok,
            Err(BatchFault::TooManyRows { rows: of, ceiling: over }) => rows > ceiling && of == rows
                && over == ceiling,
            Err(BatchFault::Fields { error }) => rows <= ceiling && walked == Err::<(), String>(
                error,
            ),
        },
{
    if rows > ceiling {
        return Err(BatchFault::TooManyRows { rows, ceiling });
    }
    match walked {
        Ok(_) => Ok(()),
        Err(error) => Err(BatchFault::Fields { error }),
    }
}

/// The refusal of a field name of `len` bytes, where that is over `ceiling`.
pub fn admit_field_name(len: u64, ceiling: u64) -> (admitted: Result<(), String>)
    ensures
        match admitted {
            Ok(_) => len <= ceiling,
            Err(error) => len > ceiling && error@ == "segment batch field name of "@ + dec(
                len as nat,
            ) + " bytes, over the "@ + dec(ceiling as nat) + "-byte identifier ceiling"@,
        },
{
    if len <= ceiling {
        return Ok(());
    }
    let mut error = String::new();
    error.append("segment batch field name of ");
    push_decimal(&mut error, len as u128);
    error.append(" bytes, over the ");
    push_decimal(&mut error, ceiling as u128);
    error.append("-byte identifier ceiling");
    proof {
        assert(error@ =~= "segment batch field name of "@ + dec(len as nat) + " bytes, over the "@
            + dec(ceiling as nat) + "-byte identifier ceiling"@);
    }
    Err(error)
}

/// Where the layout is passed, every block lies within the file, and the decoder is asked to read
/// at most twice the file's bytes and four times those it has allocated.
pub proof fn law_a_passed_layout_bounds_the_decoder(
    file_len: u64,
    allocated: u64,
    blocks: Seq<Block>,
)
    requires
        extents_fault(file_len, allocated, blocks) is None,
        file_len <= i64::MAX,
        allocated <= i64::MAX,
    ensures
        forall|i: int| 0 <= i < blocks.len() ==> #[trigger] block_fits(file_len, blocks[i]),
        extents(blocks, blocks.len() as int) <= 2 * file_len,
        extents(blocks, blocks.len() as int) <= saturated(allocated * ALLOCATION_HEADROOM),
{
}

/// The bytes that `blocks` span together, whatever they overlap.
pub open spec fn spanned(blocks: Seq<Block>) -> int
    decreases blocks.len(),
{
    if blocks.len() == 0 {
        0
    } else {
        blocks[0].1 + blocks[0].2 + spanned(blocks.skip(1))
    }
}

proof fn lemma_spanned(blocks: Seq<Block>, n: int)
    requires
        0 <= n <= blocks.len(),
    ensures
        extents(blocks, n) + spanned(blocks.skip(n)) == spanned(blocks),
    decreases n,
{
    if n > 0 {
        lemma_spanned(blocks, n - 1);
        assert(blocks.skip(n - 1)[0] == blocks[n - 1]);
        assert(blocks.skip(n - 1).skip(1) =~= blocks.skip(n));
    } else {
        assert(blocks.skip(0) =~= blocks);
    }
}

/// A layout passes exactly where every block lies within the file, front and back, and the blocks
/// together span no more than the file twice and what it has allocated four times, as far as these
/// can be counted.
pub proof fn law_layouts_within_their_file_pass(file_len: u64, allocated: u64, blocks: Seq<Block>)
    ensures
        extents_fault(file_len, allocated, blocks) is None <==> {
            &&& forall|i: int|
                0 <= i < blocks.len() ==> 0 <= (#[trigger] blocks[i]).0 && 0 <= blocks[i].1 && 0
                    <= blocks[i].2 && blocks[i].0 + blocks[i].1 + blocks[i].2 <= file_len
            &&& spanned(blocks) <= 2 * file_len || 2 * file_len >= u64::MAX
            &&& spanned(blocks) <= 4 * allocated || 4 * allocated >= u64::MAX
        },
{
    lemma_spanned(blocks, blocks.len() as int);
    assert(blocks.skip(blocks.len() as int) =~= Seq::empty());
    if forall|i: int|
        0 <= i < blocks.len() ==> 0 <= (#[trigger] blocks[i]).0 && 0 <= blocks[i].1 && 0
            <= blocks[i].2 && blocks[i].0 + blocks[i].1 + blocks[i].2 <= file_len {
        assert forall|i: int| 0 <= i < blocks.len() implies #[trigger] block_fits(
            file_len,
            blocks[i],
        ) by {
            assert(0 <= blocks[i].0);
        }
    } else {
        let i = choose|i: int|
            0 <= i < blocks.len() && !(0 <= (#[trigger] blocks[i]).0 && 0 <= blocks[i].1 && 0
                <= blocks[i].2 && blocks[i].0 + blocks[i].1 + blocks[i].2 <= file_len);
        assert(!block_fits(file_len, blocks[i]));
    }
}

/// A file is taken for unchanged only where its length and both its times are what they were, to
/// the nanosecond; what it has allocated may change.
pub proof fn law_every_change_is_seen(before: SegmentStat, after: SegmentStat)
    ensures
        !before.differs(after) <==> before == (SegmentStat {
            allocated: before.allocated,
            ..after
        }),
{
}

/// A layout that is held against the file passes only where nothing of the file changed meanwhile.
pub proof fn law_no_changed_segment_passes(
    before: SegmentStat,
    dictionaries: Seq<Block>,
    batches: Seq<Block>,
    after: SegmentStat,
    fault: Option<LayoutFault>,
)
    requires
        layout_fault(before, Ok((dictionaries, batches)), after, fault),
    ensures
        fault is None <==> {
            &&& before == (SegmentStat { allocated: before.allocated, ..after })
            &&& extents_fault(before.len, before.allocated, dictionaries + batches) is None
        },
{
    law_every_change_is_seen(before, after);
}

/// A trailer's first four bytes are the footer's length, the least first; what does not fit an
/// `i32` is negative, and is never read.
pub proof fn law_footer_lengths_read_back(file_len: u64, trailer: Seq<u8>, n: int)
    requires
        trailer.len() == 10,
        0 <= n < 4294967296,
        trailer[0] == n % 256,
        trailer[1] == (n / 256) % 256,
        trailer[2] == (n / 65536) % 256,
        trailer[3] == n / 16777216,
    ensures
        n < 2147483648 ==> trailer_length(trailer) == n,
        n >= 2147483648 ==> trailer_length(trailer) == n - 4294967296,
        footer_declared(file_len, trailer) ==> n < 2147483648 && n + 10 <= file_len,
{
}

/// A footer is read exactly where the file is long enough for a file of its kind, its last bytes are
/// the kind's, and the footer, of no more than sixteen mebibytes, fits before them; else the first
/// of these that does not hold is told.
pub proof fn law_footers_are_read_where_they_fit(file_len: u64, trailer: Seq<u8>, fault: LayoutFault)
    requires
        trailer.len() == 10,
    ensures
        ({
            let marked = trailer[4] == 65 && trailer[5] == 82 && trailer[6] == 82 && trailer[7] == 79
                && trailer[8] == 87 && trailer[9] == 49;
            let len = trailer_length(trailer);
            &&& footer_declared(file_len, trailer) <==> file_len >= 18 && marked && 0 <= len
                && len + 10 <= file_len && len <= 16_777_216
            &&& !footer_declared(file_len, trailer) && footer_fault(file_len, trailer, fault) ==> {
                &&& file_len < 18 ==> fault == (LayoutFault::TooSmall { file_len })
                &&& file_len >= 18 && (!marked || len < 0) ==> fault is Trailer
                &&& file_len >= 18 && marked && len + 10 > file_len ==> fault == (
                LayoutFault::FooterPastFile { footer_len: len as u64, file_len })
                &&& file_len >= 18 && marked && 0 <= len && len + 10 <= file_len ==> fault == (
                LayoutFault::FooterOverCap { footer_len: len as u64 })
            }
        }),
{
    let tail = trailer.skip(4);
    let magic = seq![65u8, 82u8, 82u8, 79u8, 87u8, 49u8];
    if tail == magic {
        assert(trailer[4] == tail[0] && trailer[5] == tail[1] && trailer[6] == tail[2] && trailer[7]
            == tail[3] && trailer[8] == tail[4] && trailer[9] == tail[5]);
        assert(magic[0] == 65 && magic[1] == 82 && magic[2] == 82 && magic[3] == 79 && magic[4]
            == 87 && magic[5] == 49);
    } else if trailer[4] == 65 && trailer[5] == 82 && trailer[6] == 82 && trailer[7] == 79
        && trailer[8] == 87 && trailer[9] == 49 {
        assert(tail =~= magic);
    }
}

} // verus!
