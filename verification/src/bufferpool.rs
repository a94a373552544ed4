//! A bounded cache of pages in front of the disk.
//!
//! The pool answers for every page that was ever written, whether the page
//! is resident or not: a page that is not resident is loaded from the disk
//! when it is asked for, and when the pool is full the page that was used
//! least recently makes room. Every write goes to the disk at once.

use crate::disk::{Disk, PageID, PAGE_SIZE};
use crate::error::StoreError;
use crate::page::{decoded, splice, zero_block, Page};
use crate::row::{field_bytes, field_width, FieldType};
use vstd::prelude::*;

verus! {

/// How many slots of `width` bytes a page holds.
pub open spec fn slots_per_page(width: nat) -> nat
    recommends
        width > 0,
{
    4096nat / width
}

/// The id of the page that holds row `row_index` of column `column_id`:
/// pages of all columns are numbered in turn, so that page `k` of column
/// `c` has the id `k * column_count + c`.
pub open spec fn page_of(row_index: nat, column_id: nat, width: nat, column_count: nat) -> nat
    recommends
        width > 0,
{
    (row_index / slots_per_page(width)) * column_count + column_id
}

/// The byte at which the slot of row `row_index` starts in its page.
pub open spec fn offset_of(row_index: nat, width: nat) -> nat
    recommends
        width > 0,
{
    (row_index % slots_per_page(width)) * width
}

/// Whether the pool can address the slot: the width is that of a name or of
/// an epoch, the column exists, and the page id fits below `usize::MAX`.
pub open spec fn addressable(
    row_index: nat,
    column_id: nat,
    width: nat,
    column_count: nat,
) -> bool {
    &&& (width == 16 || width == 64)
    &&& column_id < column_count
    &&& page_of(row_index, column_id, width, column_count) < usize::MAX
}

/// The block under `pid`, or a block of zeros where there is none yet.
pub open spec fn block_or_zero(blocks: Map<PageID, Seq<u8>>, pid: PageID) -> Seq<u8> {
    if blocks.contains_key(pid) {
        blocks[pid]
    } else {
        zero_block()
    }
}

/// The bytes in the slot of row `row_index` of column `column_id`, where the
/// pool can address the slot and the page exists.
pub open spec fn slot(
    blocks: Map<PageID, Seq<u8>>,
    row_index: nat,
    column_id: nat,
    width: nat,
    column_count: nat,
) -> Option<Seq<u8>> {
    let pid = page_of(row_index, column_id, width, column_count) as PageID;
    let offset = offset_of(row_index, width) as int;
    if addressable(row_index, column_id, width, column_count) && blocks.contains_key(pid) {
        Some(blocks[pid].subrange(offset, offset + width))
    } else {
        None
    }
}

/// The pages after `bytes` was written into the slot of row `row_index` of
/// column `column_id`: the page of the slot has `bytes` at the slot's
/// offset and is otherwise as before, or zero where it did not exist.
pub open spec fn with_slot(
    blocks: Map<PageID, Seq<u8>>,
    row_index: nat,
    column_id: nat,
    width: nat,
    column_count: nat,
    bytes: Seq<u8>,
) -> Map<PageID, Seq<u8>> {
    let pid = page_of(row_index, column_id, width, column_count) as PageID;
    let offset = offset_of(row_index, width) as int;
    blocks.insert(pid, splice(block_or_zero(blocks, pid), offset, bytes))
}

/// A slot lies within its page.
pub proof fn lemma_offset_in_page(row_index: nat, width: nat)
    requires
        width == 16 || width == 64,
    ensures
        offset_of(row_index, width) + width <= 4096,
        offset_of(row_index, width) % width == 0,
{
    if width == 16 {
        assert(slots_per_page(16) == 256);
        assert(row_index % 256 < 256);
        assert(((row_index % 256) * 16) % 16 == 0) by (nonlinear_arith);
    } else {
        assert(slots_per_page(64) == 64);
        assert(row_index % 64 < 64);
        assert(((row_index % 64) * 64) % 64 == 0) by (nonlinear_arith);
    }
}

/// Pages of different columns have different ids.
pub proof fn lemma_pages_of_columns_differ(k1: nat, c1: nat, k2: nat, c2: nat, column_count: nat)
    requires
        c1 < column_count,
        c2 < column_count,
        c1 != c2,
    ensures
        k1 * column_count + c1 != k2 * column_count + c2,
{
    vstd::arithmetic::div_mod::lemma_fundamental_div_mod_converse(
        (k1 * column_count + c1) as int,
        column_count as int,
        k1 as int,
        c1 as int,
    );
    vstd::arithmetic::div_mod::lemma_fundamental_div_mod_converse(
        (k2 * column_count + c2) as int,
        column_count as int,
        k2 as int,
        c2 as int,
    );
}

/// Different pages of one column have different ids.
pub proof fn lemma_pages_of_column_differ(k1: nat, k2: nat, c: nat, column_count: nat)
    requires
        c < column_count,
        k1 != k2,
    ensures
        k1 * column_count + c != k2 * column_count + c,
{
    vstd::arithmetic::div_mod::lemma_fundamental_div_mod_converse(
        (k1 * column_count + c) as int,
        column_count as int,
        k1 as int,
        c as int,
    );
    vstd::arithmetic::div_mod::lemma_fundamental_div_mod_converse(
        (k2 * column_count + c) as int,
        column_count as int,
        k2 as int,
        c as int,
    );
}

/// The page id of a slot grows with the row.
pub proof fn lemma_page_of_monotonic(
    r1: nat,
    r2: nat,
    column_id: nat,
    width: nat,
    column_count: nat,
)
    requires
        width == 16 || width == 64,
        r1 <= r2,
    ensures
        page_of(r1, column_id, width, column_count) <= page_of(
            r2,
            column_id,
            width,
            column_count,
        ),
{
    let a = if width == 16 {
        r1 / 256
    } else {
        r1 / 64
    };
    let b = if width == 16 {
        r2 / 256
    } else {
        r2 / 64
    };
    assert(slots_per_page(16) == 256 && slots_per_page(64) == 64);
    assert(a == r1 / slots_per_page(width));
    assert(b == r2 / slots_per_page(width));
    assert(a <= b);
    assert(a * column_count <= b * column_count) by (nonlinear_arith)
        requires
            a <= b,
    ;
}

/// A slot that was written holds what was written.
pub proof fn lemma_slot_written(
    blocks: Map<PageID, Seq<u8>>,
    row_index: nat,
    column_id: nat,
    width: nat,
    column_count: nat,
    bytes: Seq<u8>,
)
    requires
        addressable(row_index, column_id, width, column_count),
        bytes.len() == width,
        forall|pid: PageID| #[trigger] blocks.contains_key(pid) ==> blocks[pid].len() == 4096,
    ensures
        slot(
            with_slot(blocks, row_index, column_id, width, column_count, bytes),
            row_index,
            column_id,
            width,
            column_count,
        ) == Some(bytes),
        forall|pid: PageID| #[trigger]
            with_slot(blocks, row_index, column_id, width, column_count, bytes).contains_key(pid)
                ==> with_slot(blocks, row_index, column_id, width, column_count, bytes)[pid].len()
                == 4096,
{
    lemma_offset_in_page(row_index, width);
    let pid = page_of(row_index, column_id, width, column_count) as PageID;
    let offset = offset_of(row_index, width) as int;
    let after = with_slot(blocks, row_index, column_id, width, column_count, bytes);
    assert(block_or_zero(blocks, pid).len() == 4096);
    assert(after[pid].subrange(offset, offset + width) =~= bytes);
}

/// Writing one slot leaves every other slot as it was: a slot of another
/// column, or another row's slot of the same width in the same column
/// whose page existed.
pub proof fn lemma_slot_kept(
    blocks: Map<PageID, Seq<u8>>,
    row_index: nat,
    column_id: nat,
    width: nat,
    column_count: nat,
    bytes: Seq<u8>,
    other_row: nat,
    other_column: nat,
    other_width: nat,
)
    requires
        addressable(row_index, column_id, width, column_count),
        bytes.len() == width,
        forall|pid: PageID| #[trigger] blocks.contains_key(pid) ==> blocks[pid].len() == 4096,
        other_column != column_id || (other_width == width && other_row != row_index
            && slot(blocks, other_row, other_column, other_width, column_count) is Some),
    ensures
        slot(
            with_slot(blocks, row_index, column_id, width, column_count, bytes),
            other_row,
            other_column,
            other_width,
            column_count,
        ) == slot(blocks, other_row, other_column, other_width, column_count),
{
    let after = with_slot(blocks, row_index, column_id, width, column_count, bytes);
    if addressable(other_row, other_column, other_width, column_count) {
        lemma_offset_in_page(row_index, width);
        lemma_offset_in_page(other_row, other_width);
        let pid = page_of(row_index, column_id, width, column_count) as PageID;
        let other_pid = page_of(other_row, other_column, other_width, column_count) as PageID;
        let offset = offset_of(row_index, width) as int;
        let other_offset = offset_of(other_row, other_width) as int;
        if other_column != column_id {
            lemma_pages_of_columns_differ(
                row_index / slots_per_page(width),
                column_id,
                other_row / slots_per_page(other_width),
                other_column,
                column_count,
            );
            assert(pid != other_pid);
        } else if pid == other_pid {
            let spp: nat = if width == 16 {
                256
            } else {
                64
            };
            assert(slots_per_page(16) == 256 && slots_per_page(64) == 64);
            assert(spp == slots_per_page(width));
            let k1 = row_index / spp;
            let k2 = other_row / spp;
            let a = row_index % spp;
            let b = other_row % spp;
            if k1 != k2 {
                lemma_pages_of_column_differ(k1, k2, column_id, column_count);
            }
            assert(k1 == k2);
            vstd::arithmetic::div_mod::lemma_fundamental_div_mod(row_index as int, spp as int);
            vstd::arithmetic::div_mod::lemma_fundamental_div_mod(other_row as int, spp as int);
            assert(a != b);
            assert(a * width + width <= b * width || b * width + width <= a * width)
                by (nonlinear_arith)
                requires
                    a != b,
                    width > 0,
            ;
            assert(blocks.contains_key(pid));
            assert(after[pid].subrange(other_offset, other_offset + width)
                =~= blocks[pid].subrange(other_offset, other_offset + width));
        }
    }
}

/// What was written into a slot is what is read from it, and what was
/// written earlier into another slot of the same width in that column, or
/// into any slot of another column, is still read from there: whichever
/// pages are resident, and however often pages left the pool in between.
pub proof fn lemma_written_values_stay(
    blocks: Map<PageID, Seq<u8>>,
    row_index: nat,
    column_id: nat,
    column_count: nat,
    value: FieldType,
    other_row: nat,
    other_column: nat,
    other_width: nat,
)
    requires
        addressable(row_index, column_id, field_width(value), column_count),
        forall|pid: PageID| #[trigger] blocks.contains_key(pid) ==> blocks[pid].len() == 4096,
        other_column != column_id || (other_width == field_width(value) && other_row != row_index
            && slot(blocks, other_row, other_column, other_width, column_count) is Some),
    ensures
        ({
            let after = with_slot(
                blocks,
                row_index,
                column_id,
                field_width(value),
                column_count,
                field_bytes(value),
            );
            &&& slot(after, row_index, column_id, field_width(value), column_count) == Some(
                field_bytes(value),
            )
            &&& decoded(field_bytes(value), field_width(value)) == value
            &&& slot(after, other_row, other_column, other_width, column_count) == slot(
                blocks,
                other_row,
                other_column,
                other_width,
                column_count,
            )
        }),
{
    crate::row::lemma_field_bytes_len(value);
    crate::page::lemma_decoded_field(value);
    lemma_slot_written(
        blocks,
        row_index,
        column_id,
        field_width(value),
        column_count,
        field_bytes(value),
    );
    lemma_slot_kept(
        blocks,
        row_index,
        column_id,
        field_width(value),
        column_count,
        field_bytes(value),
        other_row,
        other_column,
        other_width,
    );
}

/// The resident page ids, least recently used first, after `pid` was used
/// in a pool of at most `limit` pages: `pid` is the most recent; if it was
/// not resident and the pool was full, the least recent left.
pub open spec fn after_use(ids: Seq<PageID>, pid: PageID, limit: nat) -> Seq<PageID> {
    if limit == 0 {
        Seq::empty()
    } else if ids.contains(pid) {
        ids.remove(ids.index_of(pid)).push(pid)
    } else if ids.len() < limit {
        ids.push(pid)
    } else {
        ids.skip(ids.len() - limit + 1).push(pid)
    }
}

/// The resident page ids once the pool may hold at most `limit` pages: the
/// most recently used ones stay.
pub open spec fn trimmed(ids: Seq<PageID>, limit: nat) -> Seq<PageID> {
    if ids.len() <= limit {
        ids
    } else {
        ids.skip(ids.len() - limit)
    }
}

/// A resident page; `dirty` when the disk does not hold its bytes yet.
struct Frame {
    page: Page,
    dirty: bool,
}

/// The resident pages, the disk beneath them, and the pool's limits.
pub struct Bufferpool {
    /// Least recently used first.
    frames: Vec<Frame>,
    disk: Disk,
    page_index: PageID,
    page_limit: usize,
    column_count: usize,
}

impl View for Bufferpool {
    type V = Map<PageID, Seq<u8>>;

    /// The bytes of every page that exists, resident or not.
    closed spec fn view(&self) -> Map<PageID, Seq<u8>> {
        Map::new(|pid: PageID| self.block(pid) is Some, |pid: PageID| self.block(pid)->Some_0)
    }
}

impl Bufferpool {
    /// The ids of the resident pages, least recently used first.
    pub closed spec fn ids(&self) -> Seq<PageID> {
        Seq::new(self.frames@.len(), |i: int| self.frames@[i].page.id())
    }

    /// The bytes of page `pid`: those of the resident page, else those on
    /// the disk.
    closed spec fn block(&self, pid: PageID) -> Option<Seq<u8>> {
        if self.ids().contains(pid) {
            Some(self.frames@[self.ids().index_of(pid)].page.bytes())
        } else if self.disk@.contains_key(pid) {
            Some(self.disk@[pid])
        } else {
            None
        }
    }

    /// The most pages that may be resident at once.
    pub closed spec fn limit(&self) -> nat {
        self.page_limit as nat
    }

    /// The number of columns whose pages the pool holds.
    pub closed spec fn columns(&self) -> nat {
        self.column_count as nat
    }

    /// The id that `create_page` hands out next.
    pub closed spec fn next_page_id(&self) -> PageID {
        self.page_index
    }

    /// The blocks that the disk beneath the pool holds.
    pub closed spec fn stored(&self) -> Map<PageID, Seq<u8>> {
        self.disk@
    }

    /// The ids whose blocks wait to be written out, each once, oldest first.
    pub closed spec fn pending(&self) -> Seq<PageID> {
        self.disk.pending()
    }

    /// What the backing files hold: the blocks that were handed in, and
    /// the blocks that were listed for writing.
    pub closed spec fn on_file(&self) -> Map<PageID, Seq<u8>> {
        self.disk.on_file()
    }

    /// What holds of the resident pages alone: none is resident twice, a
    /// page that is not dirty has the same bytes on the disk, and every id
    /// lies below the next one to hand out.
    closed spec fn frames_wf(&self) -> bool {
        &&& self.disk.wf()
        &&& self.ids().no_duplicates()
        &&& forall|i: int|
            0 <= i < self.frames@.len() && !self.frames@[i].dirty ==> self.disk@.contains_key(
                #[trigger] self.ids()[i],
            ) && self.disk@[self.ids()[i]] == self.frames@[i].page.bytes()
        &&& forall|i: int|
            0 <= i < self.frames@.len() ==> #[trigger] self.ids()[i] < self.page_index
        &&& forall|pid: PageID| #[trigger] self.disk@.contains_key(pid) ==> pid < self.page_index
    }

    /// The pool's invariant: no page is resident twice, no more pages are
    /// resident than the limit allows, a resident page that is not dirty has
    /// the same bytes on the disk, and every page id in use lies below the
    /// next one to hand out.
    pub closed spec fn wf(&self) -> bool {
        &&& self.frames_wf()
        &&& self.frames@.len() <= self.page_limit
    }

    /// Every page has 4096 bytes and an id below the next one to hand out;
    /// no more pages are resident than the limit allows, none twice.
    pub proof fn lemma_wf(&self)
        requires
            self.wf(),
        ensures
            self.ids().len() <= self.limit(),
            self.ids().no_duplicates(),
            forall|pid: PageID| #[trigger]
                self@.contains_key(pid) ==> self@[pid].len() == PAGE_SIZE && pid
                    < self.next_page_id(),
            forall|i: int|
                0 <= i < self.ids().len() ==> self@.contains_key(#[trigger] self.ids()[i]),
            forall|pid: PageID| #[trigger]
                self.stored().contains_key(pid) ==> self@.contains_key(pid),
            forall|i: int|
                0 <= i < self.pending().len() ==> self.stored().contains_key(
                    #[trigger] self.pending()[i],
                ),
    {
        assert forall|pid: PageID| #[trigger] self@.contains_key(pid) implies self@[pid].len()
            == PAGE_SIZE && pid < self.next_page_id() by {
            if self.ids().contains(pid) {
                let i = self.ids().index_of(pid);
                assert(self.ids()[i] == pid);
                self.frames@[i].page.lemma_bytes_len();
            } else {
                self.disk.lemma_block_len(pid);
            }
        }
        assert forall|i: int| 0 <= i < self.ids().len() implies self@.contains_key(
            #[trigger] self.ids()[i],
        ) by {
            assert(self.ids().contains(self.ids()[i]));
        }
        assert forall|i: int| 0 <= i < self.pending().len() implies self.stored().contains_key(
            #[trigger] self.pending()[i],
        ) by {
            self.disk.lemma_pending_stored(i);
        }
    }

    /// The bytes of a resident page are those of its frame.
    proof fn lemma_block_at(&self, i: int)
        requires
            self.ids().no_duplicates(),
            0 <= i < self.frames@.len(),
        ensures
            self.ids().contains(self.ids()[i]),
            self.ids().index_of(self.ids()[i]) == i,
            self.block(self.ids()[i]) == Some(self.frames@[i].page.bytes()),
    {
        assert(self.ids()[i] == self.ids()[i]);
    }

    /// The bytes of a page that is not resident are those on the disk.
    proof fn lemma_block_absent(&self, pid: PageID)
        requires
            !self.ids().contains(pid),
        ensures
            self.block(pid) == if self.disk@.contains_key(pid) {
                Some(self.disk@[pid])
            } else {
                None::<Seq<u8>>
            },
    {
    }

    /// The resident pages keep their invariant and their bytes when the
    /// frames do not change, the disk keeps its blocks, and the next page id
    /// does not fall back. The bytes of a page that is not resident are
    /// then those on the disk.
    proof fn lemma_frames_kept(&self, before: &Bufferpool)
        requires
            before.frames_wf(),
            self.frames@ == before.frames@,
            self.disk.wf(),
            before.page_index <= self.page_index,
            forall|p: PageID| #[trigger] self.disk@.contains_key(p) ==> p < self.page_index,
            forall|p: PageID|
                before.ids().contains(p) && #[trigger] before.disk@.contains_key(p)
                    ==> self.disk@.contains_key(p) && self.disk@[p] == before.disk@[p],
        ensures
            self.frames_wf(),
            self.ids() == before.ids(),
            forall|p: PageID|
                before.ids().contains(p) ==> #[trigger] self.block(p) == before.block(p),
            forall|p: PageID|
                !before.ids().contains(p) ==> #[trigger] self.block(p) == (
                if self.disk@.contains_key(p) {
                    Some(self.disk@[p])
                } else {
                    None::<Seq<u8>>
                }),
    {
        assert(self.ids() =~= before.ids());
        assert forall|j: int| 0 <= j < self.frames@.len() && !self.frames@[j].dirty
            implies self.disk@.contains_key(#[trigger] self.ids()[j])
            && self.disk@[self.ids()[j]] == self.frames@[j].page.bytes() by {
            assert(before.ids()[j] == self.ids()[j]);
            assert(before.ids().contains(self.ids()[j]));
        }
        assert forall|j: int| 0 <= j < self.frames@.len() implies #[trigger] self.ids()[j]
            < self.page_index by {
            assert(before.ids()[j] == self.ids()[j]);
        }
    }

    /// The same, where the disk did not change either.
    proof fn lemma_pool_kept(&self, before: &Bufferpool)
        requires
            before.frames_wf(),
            self.frames@ == before.frames@,
            self.disk.wf(),
            self.disk@ == before.disk@,
            before.page_index <= self.page_index,
        ensures
            self.frames_wf(),
            self.ids() == before.ids(),
            forall|p: PageID| #[trigger] self.block(p) == before.block(p),
            self@ == before@,
    {
        self.lemma_frames_kept(before);
        assert forall|p: PageID| #[trigger] self.block(p) == before.block(p) by {
            if !before.ids().contains(p) {
                before.lemma_block_absent(p);
            }
        }
        self.lemma_same_blocks(before);
    }

    /// Two pools with the same bytes under every id have the same view.
    proof fn lemma_same_blocks(&self, other: &Bufferpool)
        requires
            forall|p: PageID| #[trigger] self.block(p) == other.block(p),
        ensures
            self@ == other@,
    {
        assert(self@ =~= other@);
    }

    /// A pool that differs from another under one id only has the other's
    /// view with that id set.
    proof fn lemma_blocks_insert(&self, before: &Bufferpool, pid: PageID, bytes: Seq<u8>)
        requires
            self.block(pid) == Some(bytes),
            forall|p: PageID| p != pid ==> #[trigger] self.block(p) == before.block(p),
        ensures
            self@ == before@.insert(pid, bytes),
    {
        assert forall|p: PageID| #[trigger]
            self@.contains_key(p) == before@.insert(pid, bytes).contains_key(p) && (
            self@.contains_key(p) ==> self@[p] == before@.insert(pid, bytes)[p]) by {
            if p != pid {
                assert(self.block(p) == before.block(p));
            }
        }
        assert(self@ =~= before@.insert(pid, bytes));
    }

    /// An empty pool for `column_count` columns, over an empty disk. Its
    /// page limit is 0: no page stays resident until the limit is raised.
    pub fn new(column_count: usize) -> (pool: Bufferpool)
        ensures
            pool.wf(),
            pool@ == Map::<PageID, Seq<u8>>::empty(),
            pool.ids() == Seq::<PageID>::empty(),
            pool.limit() == 0,
            pool.columns() == column_count,
            pool.next_page_id() == 0,
            pool.pending() == Seq::<PageID>::empty(),
            pool.stored() == Map::<PageID, Seq<u8>>::empty(),
            pool.on_file() == Map::<PageID, Seq<u8>>::empty(),
    {
        let pool = Bufferpool {
            frames: Vec::new(),
            disk: Disk::new(),
            page_index: 0,
            page_limit: 0,
            column_count,
        };
        assert(pool.ids() =~= Seq::<PageID>::empty());
        assert(pool@ =~= Map::<PageID, Seq<u8>>::empty());
        pool
    }

    /// The index of the frame that holds page `pid`, if it is resident.
    fn find(&self, pid: PageID) -> (found: Option<usize>)
        ensures
            match found {
                Some(i) => i < self.frames@.len() && self.ids()[i as int] == pid
                    && self.ids().contains(pid),
                None => !self.ids().contains(pid),
            },
    {
        let mut i: usize = 0;
        while i < self.frames.len()
            invariant
                i <= self.frames@.len(),
                forall|j: int| 0 <= j < i ==> self.ids()[j] != pid,
            decreases self.frames@.len() - i,
        {
            if self.frames[i].page.pid() == pid {
                assert(self.ids()[i as int] == pid);
                return Some(i);
            }
            i += 1;
        }
        None
    }

    /// Takes the frame at index `i` out of the pool. Its page is then
    /// neither resident nor, if it was dirty, on the disk: the caller puts
    /// it back or stores it.
    fn take(&mut self, i: usize) -> (frame: Frame)
        requires
            old(self).frames_wf(),
            i < old(self).frames@.len(),
        ensures
            final(self).frames_wf(),
            frame == old(self).frames@[i as int],
            frame.page.id() == old(self).ids()[i as int],
            old(self).block(frame.page.id()) == Some(frame.page.bytes()),
            final(self).ids() == old(self).ids().remove(i as int),
            final(self).frames@.len() == old(self).frames@.len() - 1,
            !final(self).ids().contains(frame.page.id()),
            final(self).disk == old(self).disk,
            final(self).page_limit == old(self).page_limit,
            final(self).column_count == old(self).column_count,
            final(self).page_index == old(self).page_index,
            frame.page.id() < old(self).page_index,
            forall|p: PageID|
                p != frame.page.id() ==> #[trigger] final(self).block(p) == old(self).block(p),
            !frame.dirty ==> {
                &&& final(self).disk@.contains_key(frame.page.id())
                &&& final(self).disk@[frame.page.id()] == frame.page.bytes()
            },
    {
        let frame = self.frames.remove(i);
        let ghost pid = frame.page.id();
        proof {
            let k = i as int;
            old(self).lemma_block_at(k);
            assert(self.ids() =~= old(self).ids().remove(k));
            assert(old(self).ids()[k] == pid);
            assert forall|j: int| 0 <= j < self.frames@.len() implies self.ids()[j] != pid by {
                if j < k {
                    assert(old(self).ids()[j] == self.ids()[j]);
                } else {
                    assert(old(self).ids()[j + 1] == self.ids()[j]);
                }
            }
            assert(!self.ids().contains(pid));
            assert forall|a: int, b: int|
                0 <= a < self.ids().len() && 0 <= b < self.ids().len() && a != b
                implies self.ids()[a] != self.ids()[b] by {
                let a2 = if a < k {
                    a
                } else {
                    a + 1
                };
                let b2 = if b < k {
                    b
                } else {
                    b + 1
                };
                assert(old(self).ids()[a2] == self.ids()[a]);
                assert(old(self).ids()[b2] == self.ids()[b]);
            }
            assert forall|j: int| 0 <= j < self.frames@.len() && !self.frames@[j].dirty
                implies self.disk@.contains_key(#[trigger] self.ids()[j])
                && self.disk@[self.ids()[j]] == self.frames@[j].page.bytes() by {
                let j2 = if j < k {
                    j
                } else {
                    j + 1
                };
                assert(old(self).ids()[j2] == self.ids()[j]);
                assert(old(self).frames@[j2] == self.frames@[j]);
            }
            assert forall|j: int| 0 <= j < self.frames@.len() implies #[trigger] self.ids()[j]
                < self.page_index by {
                let j2 = if j < k {
                    j
                } else {
                    j + 1
                };
                assert(old(self).ids()[j2] == self.ids()[j]);
            }
            assert forall|p: PageID| p != pid implies #[trigger] self.block(p) == old(self).block(
                p,
            ) by {
                if old(self).ids().contains(p) {
                    let j = old(self).ids().index_of(p);
                    assert(old(self).ids()[j] == p);
                    let j2 = if j < k {
                        j
                    } else {
                        j - 1
                    };
                    assert(self.ids()[j2] == p);
                    self.lemma_block_at(j2);
                    old(self).lemma_block_at(j);
                    assert(old(self).frames@[j] == self.frames@[j2]);
                } else {
                    if self.ids().contains(p) {
                        let j = self.ids().index_of(p);
                        assert(self.ids()[j] == p);
                        let j2 = if j < k {
                            j
                        } else {
                            j + 1
                        };
                        assert(old(self).ids()[j2] == p);
                    }
                    self.lemma_block_absent(p);
                    old(self).lemma_block_absent(p);
                }
            }
        }
        frame
    }

    /// Writes the bytes of a page that is not resident to the disk.
    fn store(&mut self, page: &Page)
        requires
            old(self).frames_wf(),
            !old(self).ids().contains(page.id()),
            page.id() < old(self).page_index,
        ensures
            final(self).frames_wf(),
            final(self).frames == old(self).frames,
            final(self).ids() == old(self).ids(),
            final(self).page_limit == old(self).page_limit,
            final(self).column_count == old(self).column_count,
            final(self).page_index == old(self).page_index,
            final(self).disk@ == old(self).disk@.insert(page.id(), page.bytes()),
            final(self).disk.on_file() == old(self).disk.on_file(),
            old(self).disk.pending().is_prefix_of(final(self).disk.pending()),
            final(self).disk.pending().contains(page.id()),
            final(self).block(page.id()) == Some(page.bytes()),
            forall|p: PageID|
                p != page.id() ==> #[trigger] final(self).block(p) == old(self).block(p),
    {
        page.write_page(&mut self.disk);
        proof {
            self.lemma_frames_kept(old(self));
            assert forall|p: PageID| p != page.id()
                implies #[trigger] self.block(p) == old(self).block(p) by {
                if !old(self).ids().contains(p) {
                    old(self).lemma_block_absent(p);
                }
            }
        }
    }

    /// Makes a page that is not resident the most recently used resident
    /// page.
    fn push(&mut self, page: Page, dirty: bool)
        requires
            old(self).frames_wf(),
            !old(self).ids().contains(page.id()),
            page.id() < old(self).page_index,
            !dirty ==> old(self).disk@.contains_key(page.id()) && old(self).disk@[page.id()]
                == page.bytes(),
        ensures
            final(self).frames_wf(),
            final(self).frames@.len() == old(self).frames@.len() + 1,
            final(self).ids() == old(self).ids().push(page.id()),
            final(self).disk == old(self).disk,
            final(self).page_limit == old(self).page_limit,
            final(self).column_count == old(self).column_count,
            final(self).page_index == old(self).page_index,
            final(self).block(page.id()) == Some(page.bytes()),
            forall|p: PageID|
                p != page.id() ==> #[trigger] final(self).block(p) == old(self).block(p),
    {
        let ghost pid = page.id();
        self.frames.push(Frame { page, dirty });
        proof {
            let n = old(self).frames@.len() as int;
            assert(self.ids() =~= old(self).ids().push(pid));
            assert(self.ids()[n] == pid);
            assert forall|a: int, b: int|
                0 <= a < self.ids().len() && 0 <= b < self.ids().len() && a != b
                implies self.ids()[a] != self.ids()[b] by {
                if a < n {
                    assert(old(self).ids()[a] == self.ids()[a]);
                    assert(old(self).ids().contains(self.ids()[a]));
                }
                if b < n {
                    assert(old(self).ids()[b] == self.ids()[b]);
                    assert(old(self).ids().contains(self.ids()[b]));
                }
            }
            assert forall|j: int| 0 <= j < self.frames@.len() && !self.frames@[j].dirty
                implies self.disk@.contains_key(#[trigger] self.ids()[j])
                && self.disk@[self.ids()[j]] == self.frames@[j].page.bytes() by {
                if j < n {
                    assert(old(self).ids()[j] == self.ids()[j]);
                    assert(old(self).frames@[j] == self.frames@[j]);
                }
            }
            assert forall|j: int| 0 <= j < self.frames@.len() implies #[trigger] self.ids()[j]
                < self.page_index by {
                if j < n {
                    assert(old(self).ids()[j] == self.ids()[j]);
                }
            }
            self.lemma_block_at(n);
            assert forall|p: PageID| p != pid implies #[trigger] self.block(p) == old(self).block(
                p,
            ) by {
                if old(self).ids().contains(p) {
                    let j = old(self).ids().index_of(p);
                    assert(old(self).ids()[j] == p);
                    assert(self.ids()[j] == p);
                    self.lemma_block_at(j);
                    old(self).lemma_block_at(j);
                    assert(old(self).frames@[j] == self.frames@[j]);
                } else {
                    if self.ids().contains(p) {
                        let j = self.ids().index_of(p);
                        assert(self.ids()[j] == p);
                        assert(j < n);
                        assert(old(self).ids()[j] == p);
                    }
                    self.lemma_block_absent(p);
                    old(self).lemma_block_absent(p);
                }
            }
        }
    }

    /// Takes the least recently used page out of the pool, writing it to
    /// the disk first if the disk does not have its bytes.
    fn evict(&mut self)
        requires
            old(self).frames_wf(),
            old(self).frames@.len() > 0,
        ensures
            final(self).frames_wf(),
            final(self).frames@.len() == old(self).frames@.len() - 1,
            final(self).ids() == old(self).ids().drop_first(),
            final(self).page_limit == old(self).page_limit,
            final(self).column_count == old(self).column_count,
            final(self).page_index == old(self).page_index,
            final(self).disk.on_file() == old(self).disk.on_file(),
            old(self).disk.pending().is_prefix_of(final(self).disk.pending()),
            forall|p: PageID| #[trigger] final(self).block(p) == old(self).block(p),
            forall|p: PageID| #[trigger]
                old(self).disk@.contains_key(p) ==> final(self).disk@.contains_key(p),
            forall|p: PageID| #[trigger]
                old(self).disk@.contains_key(p) && !old(self).ids().contains(p)
                    ==> final(self).disk@[p] == old(self).disk@[p],
    {
        let frame = self.take(0);
        let ghost taken = *self;
        proof {
            assert(old(self).ids().remove(0) =~= old(self).ids().drop_first());
        }
        if frame.dirty {
            self.store(&frame.page);
        } else {
            proof {
                self.lemma_block_absent(frame.page.id());
            }
        }
        proof {
            assert forall|p: PageID| #[trigger] self.block(p) == old(self).block(p) by {
                if p != frame.page.id() {
                    assert(taken.block(p) == old(self).block(p));
                    assert(self.block(p) == taken.block(p));
                }
            }
        }
    }

    /// Makes `page` the most recently used resident page, after making room
    /// for it. In a pool with limit 0 the page goes to the disk instead.
    fn register(&mut self, page: Page, dirty: bool)
        requires
            old(self).wf(),
            !old(self).ids().contains(page.id()),
            page.id() < old(self).page_index,
            !dirty ==> old(self).disk@.contains_key(page.id()) && old(self).disk@[page.id()]
                == page.bytes(),
        ensures
            final(self).wf(),
            final(self).ids() == after_use(old(self).ids(), page.id(), old(self).limit()),
            final(self).page_limit == old(self).page_limit,
            final(self).column_count == old(self).column_count,
            final(self).page_index == old(self).page_index,
            final(self).disk.on_file() == old(self).disk.on_file(),
            old(self).disk.pending().is_prefix_of(final(self).disk.pending()),
            final(self).block(page.id()) == Some(page.bytes()),
            forall|p: PageID|
                p != page.id() ==> #[trigger] final(self).block(p) == old(self).block(p),
            !dirty ==> final(self).disk@.contains_key(page.id()) && final(self).disk@[page.id()]
                == page.bytes(),
    {
        let ghost pid = page.id();
        if self.page_limit == 0 {
            if dirty {
                self.store(&page);
            } else {
                proof {
                    self.lemma_block_absent(pid);
                }
            }
            proof {
                assert(self.ids() =~= Seq::<PageID>::empty());
            }
            return ;
        }
        if self.frames.len() >= self.page_limit {
            self.evict();
            proof {
                assert(old(self).ids().skip(1) =~= old(self).ids().drop_first());
                if self.ids().contains(pid) {
                    let j = self.ids().index_of(pid);
                    assert(self.ids()[j] == pid);
                    assert(old(self).ids()[j + 1] == pid);
                }
            }
        }
        let ghost mid = *self;
        self.push(page, dirty);
        proof {
            assert forall|p: PageID| p != pid implies #[trigger] self.block(p) == old(self).block(
                p,
            ) by {
                assert(self.block(p) == mid.block(p));
                assert(mid.block(p) == old(self).block(p));
            }
        }
    }

    /// The page at index `i` leaves its place to become the most recently
    /// used one; what `after_use` says of a resident page.
    proof fn lemma_after_use_resident(ids: Seq<PageID>, i: int, limit: nat)
        requires
            ids.no_duplicates(),
            0 <= i < ids.len(),
            ids.len() <= limit,
        ensures
            after_use(ids.remove(i), ids[i], limit) == after_use(ids, ids[i], limit),
    {
        let pid = ids[i];
        let rest = ids.remove(i);
        assert(ids.contains(pid));
        assert(ids.index_of(pid) == i);
        assert(!rest.contains(pid)) by {
            if rest.contains(pid) {
                let j = rest.index_of(pid);
                assert(rest[j] == pid);
                if j < i {
                    assert(ids[j] == pid);
                } else {
                    assert(ids[j + 1] == pid);
                }
            }
        }
    }

    /// Sets the most pages that may be resident at once. Pages beyond the
    /// new limit leave the pool, the least recently used first.
    pub fn set_page_limit(&mut self, limit: usize)
        requires
            old(self).wf(),
        ensures
            final(self).wf(),
            final(self).limit() == limit,
            final(self)@ == old(self)@,
            final(self).ids() == trimmed(old(self).ids(), limit as nat),
            final(self).columns() == old(self).columns(),
            final(self).next_page_id() == old(self).next_page_id(),
            final(self).on_file() == old(self).on_file(),
    {
        let ghost n = self.frames@.len();
        while self.frames.len() > limit
            invariant
                self.frames_wf(),
                forall|p: PageID| #[trigger] self.block(p) == old(self).block(p),
                self.frames@.len() <= n,
                self.frames@.len() == n || self.frames@.len() >= limit,
                n == old(self).frames@.len(),
                self.ids() == old(self).ids().skip(n - self.frames@.len()),
                self.column_count == old(self).column_count,
                self.page_index == old(self).page_index,
                self.disk.on_file() == old(self).disk.on_file(),
            decreases self.frames@.len(),
        {
            let ghost before = *self;
            self.evict();
            proof {
                assert(self.ids() =~= old(self).ids().skip(n - self.frames@.len()));
                assert forall|p: PageID| #[trigger] self.block(p) == old(self).block(p) by {
                    assert(self.block(p) == before.block(p));
                }
            }
        }
        proof {
            assert(old(self).ids().skip(0) =~= old(self).ids());
        }
        let ghost before = *self;
        self.page_limit = limit;
        proof {
            self.lemma_pool_kept(&before);
            assert forall|p: PageID| #[trigger] self.block(p) == old(self).block(p) by {
                assert(self.block(p) == before.block(p));
            }
            self.lemma_same_blocks(old(self));
        }
    }

    /// The most pages that may be resident at once.
    pub fn page_limit(&self) -> (limit: usize)
        ensures
            limit == self.limit(),
    {
        self.page_limit
    }

    /// The number of columns whose pages the pool holds.
    pub fn column_count(&self) -> (n: usize)
        ensures
            n == self.columns(),
    {
        self.column_count
    }

    /// Registers an empty page for values of the kind of `field_type` under
    /// the next free id, as the most recently used page, and returns the id.
    /// Fails when no id is left.
    pub fn create_page(&mut self, field_type: FieldType) -> (res: Result<PageID, StoreError>)
        requires
            old(self).wf(),
        ensures
            final(self).wf(),
            final(self).limit() == old(self).limit(),
            final(self).columns() == old(self).columns(),
            final(self).on_file() == old(self).on_file(),
            match res {
                Ok(pid) => {
                    &&& pid == old(self).next_page_id()
                    &&& pid < usize::MAX
                    &&& final(self).next_page_id() == pid + 1
                    &&& final(self)@ == old(self)@.insert(pid, zero_block())
                    &&& final(self).ids() == after_use(old(self).ids(), pid, old(self).limit())
                },
                Err(e) => {
                    &&& e == StoreError::OutOfRange
                    &&& old(self).next_page_id() == usize::MAX
                    &&& final(self).next_page_id() == old(self).next_page_id()
                    &&& final(self)@ == old(self)@
                    &&& final(self).ids() == old(self).ids()
                },
            },
    {
        if self.page_index == usize::MAX {
            return Err(StoreError::OutOfRange);
        }
        let pid = self.page_index;
        let page = Page::new(pid, field_type);
        proof {
            if self.ids().contains(pid) {
                let j = self.ids().index_of(pid);
                assert(self.ids()[j] == pid);
            }
        }
        self.page_index = pid + 1;
        let ghost bumped = *self;
        proof {
            bumped.lemma_pool_kept(old(self));
        }
        self.register(page, true);
        proof {
            assert forall|p: PageID| p != pid implies #[trigger] self.block(p) == old(self).block(
                p,
            ) by {
                assert(self.block(p) == bumped.block(p));
            }
            self.lemma_blocks_insert(old(self), pid, zero_block());
        }
        Ok(pid)
    }

    /// The number of resident pages.
    pub fn size(&self) -> (n: usize)
        ensures
            n == self.ids().len(),
    {
        self.frames.len()
    }

    /// Whether no page is resident.
    pub fn empty(&self) -> (b: bool)
        ensures
            b == (self.ids().len() == 0),
    {
        self.size() == 0
    }

    /// Whether as many pages are resident as the limit allows.
    pub fn full(&self) -> (b: bool)
        ensures
            b == (self.ids().len() >= self.limit()),
    {
        self.frames.len() >= self.page_limit
    }

    /// The resident page with id `pid`, if there is one.
    pub fn page(&self, pid: PageID) -> (res: Option<&Page>)
        requires
            self.wf(),
        ensures
            match res {
                Some(page) => self.ids().contains(pid) && page.id() == pid && self@.contains_key(
                    pid,
                ) && page.bytes() == self@[pid],
                None => !self.ids().contains(pid),
            },
    {
        match self.find(pid) {
            Some(i) => {
                proof {
                    self.lemma_block_at(i as int);
                }
                Some(&self.frames[i].page)
            },
            None => None,
        }
    }

    /// The page id and byte offset of row `row_index` of column
    /// `column_id`, in pages of slots of `width` bytes; nothing where the
    /// pool cannot address the slot.
    pub fn locate(&self, row_index: usize, column_id: usize, width: usize) -> (res: Option<
        (PageID, usize),
    >)
        ensures
            match res {
                Some((pid, offset)) => {
                    &&& addressable(
                        row_index as nat,
                        column_id as nat,
                        width as nat,
                        self.columns(),
                    )
                    &&& pid == page_of(
                        row_index as nat,
                        column_id as nat,
                        width as nat,
                        self.columns(),
                    )
                    &&& offset == offset_of(row_index as nat, width as nat)
                    &&& offset + width <= PAGE_SIZE
                },
                None => !addressable(
                    row_index as nat,
                    column_id as nat,
                    width as nat,
                    self.columns(),
                ),
            },
    {
        if width != 16 && width != 64 {
            return None;
        }
        if column_id >= self.column_count {
            return None;
        }
        let slots: usize = PAGE_SIZE / width;
        let local: usize = row_index / slots;
        let within: usize = row_index % slots;
        let offset: usize = within * width;
        assert(slots == slots_per_page(width as nat));
        match local.checked_mul(self.column_count) {
            Some(base) => match base.checked_add(column_id) {
                Some(pid) => {
                    if pid < usize::MAX {
                        Some((pid, offset))
                    } else {
                        None
                    }
                },
                None => None,
            },
            None => {
                proof {
                    assert(local * self.column_count + column_id >= usize::MAX) by (nonlinear_arith)
                        requires
                            local * self.column_count > usize::MAX,
                            column_id >= 0,
                    ;
                }
                None
            },
        }
    }

    /// Reads row `row_index` of column `column_id`, whose values take
    /// `field_width` bytes: a name for width 64, an epoch for width 16. The
    /// page is loaded from the disk if it is not resident, and becomes the
    /// most recently used one. Nothing is returned where the page was never
    /// created, or where the pool cannot address the slot.
    pub fn fetch(&mut self, row_index: usize, column_id: usize, field_width: usize) -> (res: Option<
        FieldType,
    >)
        requires
            old(self).wf(),
        ensures
            final(self).wf(),
            final(self)@ == old(self)@,
            final(self).limit() == old(self).limit(),
            final(self).columns() == old(self).columns(),
            final(self).next_page_id() == old(self).next_page_id(),
            final(self).on_file() == old(self).on_file(),
            res == match slot(
                old(self)@,
                row_index as nat,
                column_id as nat,
                field_width as nat,
                old(self).columns(),
            ) {
                Some(bytes) => Some(decoded(bytes, field_width as nat)),
                None => None,
            },
            final(self).ids() == if res is Some {
                after_use(
                    old(self).ids(),
                    page_of(
                        row_index as nat,
                        column_id as nat,
                        field_width as nat,
                        old(self).columns(),
                    ) as PageID,
                    old(self).limit(),
                )
            } else {
                old(self).ids()
            },
    {
        let (pid, offset) = match self.locate(row_index, column_id, field_width) {
            Some(place) => place,
            None => {
                return None;
            },
        };
        let frame = match self.find(pid) {
            Some(i) => {
                proof {
                    Self::lemma_after_use_resident(self.ids(), i as int, self.limit());
                }
                self.take(i)
            },
            None => {
                let kind = if field_width == 64 {
                    FieldType::Name([0u8; 64])
                } else {
                    FieldType::Epoch(0)
                };
                let mut page = Page::new(pid, kind);
                proof {
                    self.lemma_block_absent(pid);
                }
                match page.open(&self.disk) {
                    Ok(()) => {},
                    Err(_) => {
                        return None;
                    },
                }
                Frame { page, dirty: false }
            },
        };
        let value = frame.page.decode(offset, field_width);
        let ghost taken = *self;
        self.register(frame.page, frame.dirty);
        proof {
            assert forall|p: PageID| #[trigger] self.block(p) == old(self).block(p) by {
                if p != pid {
                    assert(self.block(p) == taken.block(p));
                    assert(taken.block(p) == old(self).block(p));
                }
            }
            self.lemma_same_blocks(old(self));
        }
        Some(value)
    }

    /// Writes `value` into row `row_index` of column `column_id` and stores
    /// the page on the disk at once. A page that is not resident is loaded
    /// first, or starts as zeros where it was never created; it becomes the
    /// most recently used page. Fails, and changes nothing, where the pool
    /// cannot address the slot.
    pub fn insert(&mut self, row_index: usize, column_id: usize, value: &FieldType) -> (res: Result<
        (),
        StoreError,
    >)
        requires
            old(self).wf(),
        ensures
            final(self).wf(),
            final(self).limit() == old(self).limit(),
            final(self).columns() == old(self).columns(),
            final(self).on_file() == old(self).on_file(),
            ({
                let width = field_width(*value);
                let columns = old(self).columns();
                let pid = page_of(row_index as nat, column_id as nat, width, columns) as PageID;
                match res {
                    Ok(()) => {
                        &&& addressable(row_index as nat, column_id as nat, width, columns)
                        &&& final(self)@ == with_slot(
                            old(self)@,
                            row_index as nat,
                            column_id as nat,
                            width,
                            old(self).columns(),
                            field_bytes(*value),
                        )
                        &&& final(self).stored().contains_key(pid)
                        &&& final(self).stored()[pid] == final(self)@[pid]
                        &&& final(self).pending().contains(pid)
                        &&& final(self).ids() == after_use(old(self).ids(), pid, old(self).limit())
                        &&& final(self).next_page_id() == if pid < old(self).next_page_id() {
                            old(self).next_page_id()
                        } else {
                            (pid + 1) as PageID
                        }
                    },
                    Err(e) => {
                        &&& e == StoreError::OutOfRange
                        &&& !addressable(row_index as nat, column_id as nat, width, columns)
                        &&& final(self)@ == old(self)@
                        &&& final(self).ids() == old(self).ids()
                        &&& final(self).next_page_id() == old(self).next_page_id()
                    },
                }
            }),
    {
        let width = value.width();
        let (pid, offset) = match self.locate(row_index, column_id, width) {
            Some(place) => place,
            None => {
                return Err(StoreError::OutOfRange);
            },
        };
        let mut page = match self.find(pid) {
            Some(i) => {
                proof {
                    Self::lemma_after_use_resident(self.ids(), i as int, self.limit());
                }
                let frame = self.take(i);
                frame.page
            },
            None => {
                let mut page = Page::new(pid, *value);
                proof {
                    self.lemma_block_absent(pid);
                }
                match page.open(&self.disk) {
                    Ok(()) => {},
                    Err(_) => {},
                }
                page
            },
        };
        assert(page.bytes() == block_or_zero(old(self)@, pid));
        let ghost taken = *self;
        if pid >= self.page_index {
            self.page_index = pid + 1;
        }
        let ghost bumped = *self;
        proof {
            bumped.lemma_pool_kept(&taken);
        }
        page.set_value(offset, *value);
        self.store(&page);
        let ghost written = *self;
        let ghost bytes = page.bytes();
        self.register(page, false);
        proof {
            assert forall|p: PageID| p != pid implies #[trigger] self.block(p) == old(self).block(
                p,
            ) by {
                assert(self.block(p) == written.block(p));
                assert(written.block(p) == bumped.block(p));
                assert(bumped.block(p) == taken.block(p));
                assert(taken.block(p) == old(self).block(p));
            }
            self.lemma_blocks_insert(old(self), pid, bytes);
            assert(written.disk@.contains_key(pid));
            let listed = written.disk.pending().index_of(pid);
            assert(written.disk.pending()[listed] == pid);
            assert(self.disk.pending()[listed] == pid);
        }
        Ok(())
    }

    /// Hands in the block that the backing file of page `pid` holds. A page
    /// that the pool already has is newer than its file and stays. Returns
    /// whether the block was taken.
    pub fn supply_block(&mut self, pid: PageID, block: [u8; PAGE_SIZE]) -> (taken: bool)
        requires
            old(self).wf(),
        ensures
            final(self).wf(),
            final(self).limit() == old(self).limit(),
            final(self).columns() == old(self).columns(),
            final(self).ids() == old(self).ids(),
            final(self).pending() == old(self).pending(),
            taken == (pid < usize::MAX && !old(self)@.contains_key(pid)),
            final(self)@ == if taken {
                old(self)@.insert(pid, block@)
            } else {
                old(self)@
            },
            final(self).on_file() == if taken {
                old(self).on_file().insert(pid, block@)
            } else {
                old(self).on_file()
            },
            final(self).next_page_id() == if taken && pid >= old(self).next_page_id() {
                (pid + 1) as PageID
            } else {
                old(self).next_page_id()
            },
    {
        if pid == usize::MAX {
            return false;
        }
        if self.disk.contains(pid) {
            return false;
        }
        match self.find(pid) {
            Some(i) => {
                proof {
                    self.lemma_block_at(i as int);
                }
                return false;
            },
            None => {},
        }
        proof {
            self.lemma_block_absent(pid);
        }
        self.disk.supply(pid, block);
        if pid >= self.page_index {
            self.page_index = pid + 1;
        }
        proof {
            self.lemma_frames_kept(old(self));
            assert forall|p: PageID| p != pid implies #[trigger] self.block(p) == old(self).block(
                p,
            ) by {
                if !old(self).ids().contains(p) {
                    old(self).lemma_block_absent(p);
                }
            }
            self.lemma_blocks_insert(old(self), pid, block@);
        }
        true
    }

    /// The ids of the pages that were stored on the disk since this was
    /// last called, oldest first: the blocks that the caller is to write to
    /// their files. Every other stored block is the same in its file
    /// already. The pool takes the listed blocks as written.
    pub fn take_pending(&mut self) -> (ids: Vec<PageID>)
        requires
            old(self).wf(),
        ensures
            final(self).wf(),
            final(self)@ == old(self)@,
            final(self).stored() == old(self).stored(),
            final(self).limit() == old(self).limit(),
            final(self).columns() == old(self).columns(),
            final(self).ids() == old(self).ids(),
            final(self).next_page_id() == old(self).next_page_id(),
            final(self).pending() == Seq::<PageID>::empty(),
            final(self).on_file() == old(self).stored(),
            ids@ == old(self).pending(),
            ids@.no_duplicates(),
            forall|i: int|
                0 <= i < ids@.len() ==> old(self).stored().contains_key(#[trigger] ids@[i]),
            forall|pid: PageID| #[trigger]
                old(self).stored().contains_key(pid) && !ids@.contains(pid) ==> {
                    &&& old(self).on_file().contains_key(pid)
                    &&& old(self).on_file()[pid] == old(self).stored()[pid]
                },
    {
        let ids = self.disk.take_pending();
        proof {
            self.lemma_pool_kept(old(self));
        }
        ids
    }

    /// The block that the disk holds under `pid`, if there is one.
    pub fn stored_block(&self, pid: PageID) -> (block: Option<[u8; PAGE_SIZE]>)
        ensures
            match block {
                Some(b) => self.stored().contains_key(pid) && b@ == self.stored()[pid],
                None => !self.stored().contains_key(pid),
            },
    {
        self.disk.read(pid)
    }
}

} // verus!
