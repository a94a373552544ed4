//! The store itself: a queue of captures, four columns over one buffer
//! pool, and an index by name.
//!
//! Captures wait in the queue until more of them wait than the configured
//! threshold; then all of them become rows, in the order in which they
//! came. A row's id is its position in the table.

use crate::bufferpool::{
    addressable, lemma_slot_kept, lemma_slot_written, slot, with_slot, Bufferpool,
};
use crate::capture::{elapsed, name_key, name_key_of, Capture};
use crate::column::Column;
use crate::disk::{PageID, PAGE_SIZE};
use crate::error::StoreError;
use crate::index::{ascending, built, ids_for, ids_of, lemma_built_ids, Index};
use crate::page::{decoded, lemma_decoded_field};
use crate::queue::{LFQueue, DB_WRITE_BUFFER_SIZE};
use crate::row::{field_bytes, field_width, lemma_field_bytes_len, Epoch, FieldType, Row, RID};
use vstd::prelude::*;
use vstd::string::StringExecFns;

verus! {

/// The number of columns of the table: name, start, end, delta.
pub const COLUMN_COUNT: usize = 4;

/// The column that holds the time a call took.
pub const DELTA_COLUMN: usize = 3;

/// The width of the values of column `c`: names in column 0, epochs in the
/// others.
spec fn column_width(c: nat) -> nat {
    if c == 0 {
        64
    } else {
        16
    }
}

/// The value in row `i` of column `c`, as the pages hold it.
spec fn cell(blocks: Map<PageID, Seq<u8>>, i: nat, c: nat) -> FieldType {
    decoded(
        match slot(blocks, i, c, column_width(c), 4) {
            Some(bytes) => bytes,
            None => Seq::empty(),
        },
        column_width(c),
    )
}

/// Row `i`, as the pages hold it.
spec fn row_at(blocks: Map<PageID, Seq<u8>>, i: nat) -> Seq<FieldType> {
    seq![cell(blocks, i, 0), cell(blocks, i, 1), cell(blocks, i, 2), cell(blocks, i, 3)]
}

/// The first `n` rows, as the pages hold them.
spec fn table(blocks: Map<PageID, Seq<u8>>, n: nat) -> Seq<Seq<FieldType>> {
    Seq::new(n, |i: int| row_at(blocks, i as nat))
}

/// Whether a table of `n` rows can take one more: `n` is below
/// `usize::MAX`, and the pool can address row `n` in all four columns.
pub open spec fn room(n: nat) -> bool {
    &&& n < usize::MAX
    &&& addressable(n, 0, 64, 4)
    &&& addressable(n, 1, 16, 4)
    &&& addressable(n, 2, 16, 4)
    &&& addressable(n, 3, 16, 4)
}

/// Whether `fetch` shows row `id`: the row exists and its start is not 0. A
/// start of 0 marks a row as unwritten; a call that really started at 0
/// cannot be told from it.
pub open spec fn visible(rows: Seq<Seq<FieldType>>, id: nat) -> bool {
    id < rows.len() && rows[id as int][1] != FieldType::Epoch(0)
}

/// The name and the id of every row, in the order of the rows.
pub open spec fn entries(rows: Seq<Seq<FieldType>>) -> Seq<(FieldType, RID)> {
    Seq::new(rows.len(), |i: int| (rows[i][0], i as RID))
}

/// The table after the captures were written to it in order: each capture
/// becomes the next row while there is room, and is dropped after that.
pub open spec fn ingested(rows: Seq<Seq<FieldType>>, captures: Seq<Capture>) -> Seq<
    Seq<FieldType>,
>
    decreases captures.len(),
{
    if captures.len() == 0 {
        rows
    } else {
        let before = ingested(rows, captures.drop_last());
        if room(before.len()) {
            before.push(captures.last().fields())
        } else {
            before
        }
    }
}

/// The time in the delta column of a row.
pub open spec fn delta_of(row: Seq<FieldType>) -> nat {
    match row[3] {
        FieldType::Epoch(e) => e as nat,
        FieldType::Name(_) => 0,
    }
}

/// The sum of the deltas of the rows `ids` that `fetch` shows.
pub open spec fn delta_sum(rows: Seq<Seq<FieldType>>, ids: Seq<RID>) -> nat
    decreases ids.len(),
{
    if ids.len() == 0 {
        0
    } else if visible(rows, ids.last() as nat) {
        delta_sum(rows, ids.drop_last()) + delta_of(rows[ids.last() as int])
    } else {
        delta_sum(rows, ids.drop_last())
    }
}

/// How many of the rows `ids` `fetch` shows.
pub open spec fn shown(rows: Seq<Seq<FieldType>>, ids: Seq<RID>) -> nat
    decreases ids.len(),
{
    if ids.len() == 0 {
        0
    } else if visible(rows, ids.last() as nat) {
        shown(rows, ids.drop_last()) + 1
    } else {
        shown(rows, ids.drop_last())
    }
}

/// A sum of deltas and the number of rows it was taken over. The sum is
/// `sum_high * 2^128 + sum_low`; the mean is the sum divided by `count`.
#[derive(Debug, Clone, Copy, PartialEq, Eq, Structural)]
pub struct Average {
    pub sum_high: usize,
    pub sum_low: u128,
    pub count: usize,
}

impl Average {
    /// The sum as a number.
    pub open spec fn total(&self) -> nat {
        self.sum_high as nat * 0x1_0000_0000_0000_0000_0000_0000_0000_0000 + self.sum_low as nat
    }
}

/// A table that has room for a row has room for every earlier row.
pub proof fn lemma_room_monotonic(n: nat, m: nat)
    requires
        n <= m,
        room(m),
    ensures
        room(n),
{
    crate::bufferpool::lemma_page_of_monotonic(n, m, 0, 64, 4);
    crate::bufferpool::lemma_page_of_monotonic(n, m, 1, 16, 4);
    crate::bufferpool::lemma_page_of_monotonic(n, m, 2, 16, 4);
    crate::bufferpool::lemma_page_of_monotonic(n, m, 3, 16, 4);
}

/// Writing captures only appends rows: every row that was there keeps its
/// id and its fields, and no more rows come than captures were given.
pub proof fn lemma_ingested_extends(rows: Seq<Seq<FieldType>>, captures: Seq<Capture>)
    ensures
        rows.len() <= ingested(rows, captures).len() <= rows.len() + captures.len(),
        forall|i: int| 0 <= i < rows.len() ==> #[trigger] ingested(rows, captures)[i] == rows[i],
    decreases captures.len(),
{
    if captures.len() > 0 {
        lemma_ingested_extends(rows, captures.drop_last());
    }
}

/// Row ids are assigned once and in order: where the table has room for
/// all of them, the captures become rows in the order in which they came,
/// capture `k` under the id that follows the ids of the rows before it.
pub proof fn lemma_ingested_ids(rows: Seq<Seq<FieldType>>, captures: Seq<Capture>)
    requires
        captures.len() > 0 ==> room((rows.len() + captures.len() - 1) as nat),
    ensures
        ingested(rows, captures).len() == rows.len() + captures.len(),
        forall|i: int| 0 <= i < rows.len() ==> #[trigger] ingested(rows, captures)[i] == rows[i],
        forall|k: int|
            0 <= k < captures.len() ==> ingested(rows, captures)[rows.len() + k]
                == (#[trigger] captures[k]).fields(),
    decreases captures.len(),
{
    if captures.len() > 0 {
        let front = captures.drop_last();
        if front.len() > 0 {
            lemma_room_monotonic(
                (rows.len() + front.len() - 1) as nat,
                (rows.len() + captures.len() - 1) as nat,
            );
        }
        lemma_ingested_ids(rows, front);
        let before = ingested(rows, front);
        assert(room(before.len()));
        assert forall|k: int| 0 <= k < captures.len() implies ingested(rows, captures)[rows.len()
            + k] == (#[trigger] captures[k]).fields() by {
            if k < front.len() {
                assert(front[k] == captures[k]);
            }
        }
    }
}

/// Every capture that was written is fetched unchanged under its id:
/// name, start, end, and the time between them. The one exception is a
/// capture whose start is 0, which `fetch` does not show.
pub proof fn lemma_written_capture_is_fetched(
    rows: Seq<Seq<FieldType>>,
    captures: Seq<Capture>,
    k: int,
)
    requires
        0 <= k < captures.len(),
        room((rows.len() + captures.len() - 1) as nat),
    ensures
        ({
            let after = ingested(rows, captures);
            let id = rows.len() + k;
            let c = captures[k];
            &&& id < after.len()
            &&& after[id] == seq![
                name_key_of(c.name@),
                FieldType::Epoch(c.start),
                FieldType::Epoch(c.end),
                FieldType::Epoch(elapsed(c.start, c.end)),
            ]
            &&& visible(after, id as nat) <==> c.start != 0
            &&& c.start <= c.end ==> elapsed(c.start, c.end) == c.end - c.start
        }),
{
    lemma_ingested_ids(rows, captures);
}

/// A copy of a list of ids.
fn copy_ids(ids: &Vec<RID>) -> (copy: Vec<RID>)
    ensures
        copy@ == ids@,
{
    let mut copy: Vec<RID> = Vec::new();
    let mut i: usize = 0;
    while i < ids.len()
        invariant
            i <= ids@.len(),
            copy@ == ids@.take(i as int),
        decreases ids@.len() - i,
    {
        copy.push(ids[i]);
        proof {
            assert(copy@ =~= ids@.take(i + 1));
        }
        i += 1;
    }
    proof {
        assert(ids@.take(ids@.len() as int) =~= ids@);
    }
    copy
}

/// The queue, the columns over their buffer pool, and the index by name.
pub struct Database {
    queue: LFQueue,
    bufferpool: Bufferpool,
    columns: Vec<Column>,
    /// Index rows by `name` field in capture
    name_index: Index,
    /// Keep track of the current row being inserted
    row_id: usize,
    /// How many captures may wait before they are written.
    write_buffer_size: usize,
}

impl Database {
    /// The rows of the table; row `i` has the id `i`.
    pub closed spec fn rows(&self) -> Seq<Seq<FieldType>> {
        table(self.bufferpool@, self.row_id as nat)
    }

    /// The captures that wait in the queue, oldest first.
    pub closed spec fn waiting(&self) -> Seq<Capture> {
        self.queue@
    }

    /// How many captures may wait before they are written.
    pub closed spec fn threshold(&self) -> nat {
        self.write_buffer_size as nat
    }

    /// The buffer pool beneath the columns.
    pub closed spec fn pool(&self) -> Bufferpool {
        self.bufferpool
    }

    /// The ids listed in the index under `key`.
    pub closed spec fn indexed(&self, key: FieldType) -> Seq<RID> {
        ids_for(self.name_index@, key)
    }

    /// Whether column `c` is column `c` of the pool, holds `n` values, and
    /// is of the kind of its place: names in column 0, epochs in the others.
    spec fn column_ok(column: Column, c: nat, n: nat) -> bool {
        &&& column.number() == c
        &&& column.len() == n
        &&& (column.kind() is Name) == (c == 0)
    }

    /// The store's invariant: the pool is well formed and has four columns;
    /// the columns are name, start, end and delta, each as long as the
    /// table; every slot of the table lies in a page that exists; and the
    /// index lists, under every name, the ids of the rows with that name.
    pub closed spec fn wf(&self) -> bool {
        &&& self.bufferpool.wf()
        &&& self.bufferpool.columns() == 4
        &&& self.columns@.len() == 4
        &&& forall|c: int|
            0 <= c < 4 ==> Self::column_ok(
                #[trigger] self.columns@[c],
                c as nat,
                self.row_id as nat,
            )
        &&& forall|i: nat, c: nat|
            i < self.row_id && c < 4 ==> (#[trigger] slot(
                self.bufferpool@,
                i,
                c,
                column_width(c),
                4,
            )) is Some
        &&& self.name_index.wf()
        &&& self.name_index@ == built(entries(self.rows()))
    }

    /// Every row has four fields: a name and three epochs. The index
    /// lists, under every name, the ids of the rows with that name, in
    /// ascending order.
    pub proof fn lemma_rows(&self)
        requires
            self.wf(),
        ensures
            self.rows().len() <= usize::MAX,
            forall|i: int|
                0 <= i < self.rows().len() ==> {
                    &&& (#[trigger] self.rows()[i]).len() == 4
                    &&& self.rows()[i][0] is Name
                    &&& self.rows()[i][1] is Epoch
                    &&& self.rows()[i][2] is Epoch
                    &&& self.rows()[i][3] is Epoch
                },
            forall|key: FieldType| #[trigger]
                self.indexed(key) == ids_of(entries(self.rows()), key),
            forall|key: FieldType| ascending(#[trigger] self.indexed(key)),
    {
        assert forall|key: FieldType| #[trigger]
            self.indexed(key) == ids_of(entries(self.rows()), key) by {
            lemma_built_ids(entries(self.rows()), key);
        }
        assert forall|key: FieldType| ascending(#[trigger] self.indexed(key)) by {
            lemma_built_ids(entries(self.rows()), key);
            crate::index::lemma_ids_ascending(entries(self.rows()), key);
        }
    }

    /// An empty store: no rows, no captures waiting, the default threshold,
    /// and a pool in which no page stays resident until its limit is raised.
    pub fn new() -> (db: Database)
        ensures
            db.wf(),
            db.rows() == Seq::<Seq<FieldType>>::empty(),
            db.waiting() == Seq::<Capture>::empty(),
            db.threshold() == DB_WRITE_BUFFER_SIZE,
            db.pool().limit() == 0,
            db.pool()@ == Map::<PageID, Seq<u8>>::empty(),
            db.pool().on_file() == Map::<PageID, Seq<u8>>::empty(),
    {
        let column_count = COLUMN_COUNT;
        let bufferpool = Bufferpool::new(column_count);
        let name_col = Column::new(String::from_str("name"), 0, FieldType::Name([0u8; 64]));
        let start_col = Column::new(String::from_str("start"), 1, FieldType::Epoch(0));
        let end_col = Column::new(String::from_str("end"), 2, FieldType::Epoch(0));
        let delta_col = Column::new(String::from_str("delta"), 3, FieldType::Epoch(0));
        let mut columns: Vec<Column> = Vec::new();
        columns.push(name_col);
        columns.push(start_col);
        columns.push(end_col);
        columns.push(delta_col);
        let name_index = Index::new();
        let db = Database {
            queue: LFQueue::new(),
            bufferpool,
            columns,
            name_index,
            row_id: 0,
            write_buffer_size: DB_WRITE_BUFFER_SIZE,
        };
        proof {
            assert(db.rows() =~= Seq::<Seq<FieldType>>::empty());
            assert(entries(db.rows()) =~= Seq::<(FieldType, RID)>::empty());
        }
        db
    }

    /// Reports a missing data directory as a configuration error.
    pub fn check_for_data(data_present: bool) -> (res: Result<(), StoreError>)
        ensures
            res == if data_present {
                Ok::<(), StoreError>(())
            } else {
                Err::<(), StoreError>(StoreError::Configuration)
            },
    {
        if data_present {
            Ok(())
        } else {
            Err(StoreError::Configuration)
        }
    }

    /// An empty store over a data directory that must be there: fails with
    /// a configuration error when it is not.
    pub fn new_reader(data_present: bool) -> (res: Result<Database, StoreError>)
        ensures
            match res {
                Ok(db) => {
                    &&& data_present
                    &&& db.wf()
                    &&& db.rows() == Seq::<Seq<FieldType>>::empty()
                    &&& db.waiting() == Seq::<Capture>::empty()
                    &&& db.threshold() == DB_WRITE_BUFFER_SIZE
                    &&& db.pool().limit() == 0
                    &&& db.pool()@ == Map::<PageID, Seq<u8>>::empty()
                },
                Err(e) => !data_present && e == StoreError::Configuration,
            },
    {
        match Database::check_for_data(data_present) {
            Ok(()) => Ok(Database::new()),
            Err(e) => Err(e),
        }
    }

    /// Capture a function and write it to the queue
    pub fn capture(&mut self, name: String, args: Vec<pyo3::PyObject>, start: Epoch, end: Epoch)
        requires
            old(self).wf(),
        ensures
            final(self).wf(),
            final(self).waiting() == old(self).waiting().push(Capture { name, args, start, end }),
            final(self).rows() == old(self).rows(),
            final(self).threshold() == old(self).threshold(),
            final(self).pool() == old(self).pool(),
    {
        self.queue.capture(name, args, start, end);
    }

    /// How many rows the table has.
    pub fn len(&self) -> (n: usize)
        requires
            self.wf(),
        ensures
            n == self.rows().len(),
    {
        self.row_id
    }

    /// How many captures wait in the queue.
    pub fn queued(&self) -> (n: usize)
        ensures
            n == self.waiting().len(),
    {
        self.queue.len()
    }

    /// Sets how many captures may wait before they are written.
    pub fn set_write_buffer_size(&mut self, size: usize)
        requires
            old(self).wf(),
        ensures
            final(self).wf(),
            final(self).threshold() == size,
            final(self).rows() == old(self).rows(),
            final(self).waiting() == old(self).waiting(),
            final(self).pool() == old(self).pool(),
    {
        self.write_buffer_size = size;
    }

    /// Row `index`: one value from each column. Nothing where the table
    /// has no such row, and nothing where the row's start is 0.
    pub fn fetch(&mut self, index: usize) -> (res: Option<Row>)
        requires
            old(self).wf(),
        ensures
            final(self).wf(),
            final(self).rows() == old(self).rows(),
            final(self).waiting() == old(self).waiting(),
            final(self).threshold() == old(self).threshold(),
            final(self).pool()@ == old(self).pool()@,
            final(self).pool().limit() == old(self).pool().limit(),
            final(self).pool().on_file() == old(self).pool().on_file(),
            match res {
                Some(row) => visible(old(self).rows(), index as nat) && row.id == index
                    && row.fields@ == old(self).rows()[index as int],
                None => !visible(old(self).rows(), index as nat),
            },
    {
        let mut data: Vec<FieldType> = Vec::new();
        let mut c: usize = 0;
        while c < self.columns.len()
            invariant
                self.wf(),
                c <= 4,
                self.columns@.len() == 4,
                self.rows() == old(self).rows(),
                self.bufferpool@ == old(self).bufferpool@,
                self.bufferpool.limit() == old(self).bufferpool.limit(),
                self.bufferpool.on_file() == old(self).bufferpool.on_file(),
                self.row_id == old(self).row_id,
                self.queue == old(self).queue,
                self.write_buffer_size == old(self).write_buffer_size,
                index < self.row_id ==> data@ == row_at(self.bufferpool@, index as nat).take(
                    c as int,
                ),
                index >= self.row_id ==> data@.len() == 0,
            decreases 4 - c,
        {
            let ghost before = *self;
            assert(Self::column_ok(self.columns@[c as int], c as nat, self.row_id as nat));
            let field = self.columns[c].fetch(&mut self.bufferpool, index);
            proof {
                assert(self.wf()) by {
                    assert forall|k: int| 0 <= k < 4 implies Self::column_ok(
                        #[trigger] self.columns@[k],
                        k as nat,
                        self.row_id as nat,
                    ) by {
                        assert(Self::column_ok(before.columns@[k], k as nat, before.row_id as nat));
                    }
                }
            }
            if let Some(f) = field {
                data.push(f);
                proof {
                    let k = c as nat;
                    assert(slot(self.bufferpool@, index as nat, k, column_width(k), 4) is Some);
                    assert(data@ =~= row_at(self.bufferpool@, index as nat).take(c + 1));
                }
            } else {
                proof {
                    if index < self.row_id {
                        let k = c as nat;
                        assert(slot(self.bufferpool@, index as nat, k, column_width(k), 4) is Some);
                    }
                }
                return None;
            }
            c += 1;
        }
        proof {
            if index < self.row_id {
                assert(row_at(self.bufferpool@, index as nat).take(4) =~= row_at(
                    self.bufferpool@,
                    index as nat,
                ));
            }
        }
        if data.len() < 2 {
            return None;
        }
        // A start of 0 marks the row as unwritten.
        if data[1].same(&FieldType::Epoch(0)) {
            return None;
        }
        Some(Row { id: index, fields: data })
    }

    /// The rows from id 0 up to the first one that `fetch` does not show.
    pub fn fetch_all(&mut self) -> (all: Vec<Row>)
        requires
            old(self).wf(),
        ensures
            final(self).wf(),
            final(self).rows() == old(self).rows(),
            final(self).waiting() == old(self).waiting(),
            final(self).threshold() == old(self).threshold(),
            final(self).pool()@ == old(self).pool()@,
            final(self).pool().limit() == old(self).pool().limit(),
            final(self).pool().on_file() == old(self).pool().on_file(),
            forall|i: int|
                0 <= i < all@.len() ==> {
                    &&& (#[trigger] all@[i]).id == i
                    &&& all@[i].fields@ == old(self).rows()[i]
                    &&& visible(old(self).rows(), all@[i].id as nat)
                },
            !visible(old(self).rows(), all@.len()),
    {
        let mut all: Vec<Row> = Vec::new();
        let mut index: usize = 0;
        let ghost rows = self.rows();
        let ghost blocks = self.pool()@;
        loop
            invariant
                self.wf(),
                self.rows() == rows,
                self.waiting() == old(self).waiting(),
                self.threshold() == old(self).threshold(),
                self.pool()@ == blocks,
                self.pool().limit() == old(self).pool().limit(),
                self.pool().on_file() == old(self).pool().on_file(),
                index == all@.len(),
                index <= rows.len(),
                rows.len() <= usize::MAX,
                forall|i: int|
                    0 <= i < all@.len() ==> (#[trigger] all@[i]).id == i && all@[i].fields@
                        == rows[i] && visible(rows, all@[i].id as nat),
            ensures
                !visible(rows, all@.len()),
            decreases rows.len() - index,
        {
            let row = self.fetch(index);
            if let Some(r) = row {
                all.push(r);
            } else {
                break ;
            }
            index += 1;
        }
        all
    }

    /// Whether the table can take one more row.
    pub fn has_room(&self) -> (b: bool)
        requires
            self.wf(),
        ensures
            b == room(self.rows().len()),
    {
        self.row_id < usize::MAX && self.bufferpool.locate(self.row_id, 0, 64).is_some()
            && self.bufferpool.locate(self.row_id, 1, 16).is_some() && self.bufferpool.locate(
            self.row_id,
            2,
            16,
        ).is_some() && self.bufferpool.locate(self.row_id, 3, 16).is_some()
    }

    /// Writes the capture as the next row: each field into its column, in
    /// field order, then the row into the index by name.
    fn write_row(&mut self, capture: &Capture)
        requires
            old(self).wf(),
            room(old(self).rows().len()),
        ensures
            final(self).wf(),
            final(self).rows() == old(self).rows().push(capture.fields()),
            final(self).waiting() == old(self).waiting(),
            final(self).threshold() == old(self).threshold(),
            final(self).pool().limit() == old(self).pool().limit(),
            final(self).pool().on_file() == old(self).pool().on_file(),
    {
        // Get the row_id value (prev); it moves on once the row is written
        let prev = self.row_id;
        let row = capture.to_row(prev);
        let ghost n = prev as nat;
        let ghost fields = capture.fields();
        let ghost blocks = self.bufferpool@;
        proof {
            assert(fields[0] is Name);
            assert(fields[1] is Epoch && fields[2] is Epoch && fields[3] is Epoch);
        }
        // Insert each field into its respective column
        let mut col_index: usize = 0;
        while col_index < 4
            invariant
                col_index <= 4,
                row.fields@ == fields,
                fields == capture.fields(),
                n == prev,
                n == old(self).row_id,
                room(n),
                self.bufferpool.wf(),
                self.bufferpool.columns() == 4,
                self.bufferpool.limit() == old(self).bufferpool.limit(),
                self.bufferpool.on_file() == old(self).bufferpool.on_file(),
                self.columns@.len() == 4,
                self.row_id == old(self).row_id,
                self.queue == old(self).queue,
                self.name_index == old(self).name_index,
                self.write_buffer_size == old(self).write_buffer_size,
                forall|c: int|
                    0 <= c < col_index ==> Self::column_ok(
                        #[trigger] self.columns@[c],
                        c as nat,
                        n + 1,
                    ),
                forall|c: int|
                    col_index <= c < 4 ==> Self::column_ok(
                        #[trigger] self.columns@[c],
                        c as nat,
                        n,
                    ),
                forall|i: nat, c: nat|
                    i < n && c < 4 ==> (#[trigger] slot(self.bufferpool@, i, c, column_width(c), 4))
                        is Some && slot(self.bufferpool@, i, c, column_width(c), 4) == slot(
                        blocks,
                        i,
                        c,
                        column_width(c),
                        4,
                    ),
                forall|c: nat|
                    c < col_index ==> (#[trigger] slot(
                        self.bufferpool@,
                        n,
                        c,
                        column_width(c),
                        4,
                    )) == Some(field_bytes(fields[c as int])),
            decreases 4 - col_index,
        {
            let ghost before = *self;
            let ghost k = col_index as nat;
            let field = row.fields[col_index];
            proof {
                assert(Self::column_ok(self.columns@[col_index as int], k, n));
                assert(field_width(field) == column_width(k));
                lemma_field_bytes_len(field);
                self.bufferpool.lemma_wf();
            }
            let res = self.columns[col_index].insert(&mut self.bufferpool, &field);
            proof {
                assert(res is Ok);
                let after = self.bufferpool@;
                assert(after == with_slot(
                    before.bufferpool@,
                    n,
                    k,
                    column_width(k),
                    4,
                    field_bytes(field),
                ));
                lemma_slot_written(
                    before.bufferpool@,
                    n,
                    k,
                    column_width(k),
                    4,
                    field_bytes(field),
                );
                assert forall|i: nat, c: nat| i < n && c < 4 implies (#[trigger] slot(
                    self.bufferpool@,
                    i,
                    c,
                    column_width(c),
                    4,
                )) is Some && slot(self.bufferpool@, i, c, column_width(c), 4) == slot(
                    blocks,
                    i,
                    c,
                    column_width(c),
                    4,
                ) by {
                    assert(slot(before.bufferpool@, i, c, column_width(c), 4) is Some);
                    lemma_slot_kept(
                        before.bufferpool@,
                        n,
                        k,
                        column_width(k),
                        4,
                        field_bytes(field),
                        i,
                        c,
                        column_width(c),
                    );
                }
                assert forall|c: nat| c < col_index + 1 implies (#[trigger] slot(
                    self.bufferpool@,
                    n,
                    c,
                    column_width(c),
                    4,
                )) == Some(field_bytes(fields[c as int])) by {
                    if c < k {
                        assert(slot(before.bufferpool@, n, c, column_width(c), 4) == Some(
                            field_bytes(fields[c as int]),
                        ));
                        lemma_slot_kept(
                            before.bufferpool@,
                            n,
                            k,
                            column_width(k),
                            4,
                            field_bytes(field),
                            n,
                            c,
                            column_width(c),
                        );
                    }
                }
                assert forall|c: int| 0 <= c < col_index + 1 implies Self::column_ok(
                    #[trigger] self.columns@[c],
                    c as nat,
                    n + 1,
                ) by {
                    if c < col_index {
                        assert(Self::column_ok(before.columns@[c], c as nat, n + 1));
                    }
                }
                assert forall|c: int| col_index + 1 <= c < 4 implies Self::column_ok(
                    #[trigger] self.columns@[c],
                    c as nat,
                    n,
                ) by {
                    assert(Self::column_ok(before.columns@[c], c as nat, n));
                }
            }
            col_index += 1;
        }
        let ghost written = self.bufferpool@;
        proof {
            let grown = table(written, n + 1);
            let target = old(self).rows().push(fields);
            assert forall|i: int| 0 <= i < n + 1 implies #[trigger] grown[i] == target[i] by {
                if i < n {
                    assert forall|c: nat| c < 4 implies #[trigger] cell(written, i as nat, c)
                        == cell(blocks, i as nat, c) by {
                        assert(slot(written, i as nat, c, column_width(c), 4) == slot(
                            blocks,
                            i as nat,
                            c,
                            column_width(c),
                            4,
                        ));
                    }
                    assert(row_at(written, i as nat) =~= row_at(blocks, i as nat));
                } else {
                    assert forall|c: nat| c < 4 implies #[trigger] cell(written, n, c)
                        == fields[c as int] by {
                        assert(slot(written, n, c, column_width(c), 4) == Some(
                            field_bytes(fields[c as int]),
                        ));
                        lemma_decoded_field(fields[c as int]);
                    }
                    assert(row_at(written, n) =~= fields);
                }
            }
            assert(grown =~= target);
            assert(entries(target) =~= entries(old(self).rows()).push((fields[0], prev)));
            assert(entries(target).drop_last() =~= entries(old(self).rows()));
        }
        // Insert into name index
        self.name_index.insert(row, 0);
        self.row_id = prev + 1;
        proof {
            assert(self.rows() == old(self).rows().push(fields));
            assert forall|i: nat, c: nat| i < self.row_id && c < 4 implies (#[trigger] slot(
                self.bufferpool@,
                i,
                c,
                column_width(c),
                4,
            )) is Some by {
                if i < n {
                    assert(slot(written, i, c, column_width(c), 4) == slot(
                        blocks,
                        i,
                        c,
                        column_width(c),
                        4,
                    ));
                }
            }
        }
    }

    /// Writes the captures as rows, in their order: each as the next row
    /// while the table has room. A capture for which the table has no room
    /// is dropped. Returns the number of rows written.
    pub fn ingest(&mut self, captures: &Vec<Capture>) -> (written: usize)
        requires
            old(self).wf(),
        ensures
            final(self).wf(),
            final(self).rows() == ingested(old(self).rows(), captures@),
            final(self).waiting() == old(self).waiting(),
            final(self).threshold() == old(self).threshold(),
            final(self).pool().limit() == old(self).pool().limit(),
            final(self).pool().on_file() == old(self).pool().on_file(),
            written == final(self).rows().len() - old(self).rows().len(),
    {
        let ghost rows = self.rows();
        let mut written: usize = 0;
        let mut i: usize = 0;
        proof {
            assert(captures@.take(0) =~= Seq::<Capture>::empty());
        }
        while i < captures.len()
            invariant
                self.wf(),
                i <= captures@.len(),
                self.rows() == ingested(rows, captures@.take(i as int)),
                self.waiting() == old(self).waiting(),
                self.threshold() == old(self).threshold(),
                self.pool().limit() == old(self).pool().limit(),
                self.pool().on_file() == old(self).pool().on_file(),
                written == self.rows().len() - rows.len(),
                self.rows().len() <= usize::MAX,
            decreases captures@.len() - i,
        {
            proof {
                assert(captures@.take(i + 1).drop_last() =~= captures@.take(i as int));
                assert(captures@.take(i + 1).last() == captures@[i as int]);
            }
            if self.has_room() {
                self.write_row(&captures[i]);
                written += 1;
            }
            i += 1;
        }
        proof {
            assert(captures@.take(captures@.len() as int) =~= captures@);
        }
        written
    }

    /// Writes the waiting captures as rows if more of them wait than the
    /// threshold allows: all of them, oldest first, each as the next row.
    /// A capture for which the table has no room is dropped. With fewer
    /// captures waiting, nothing happens. Returns the number of rows
    /// written.
    pub fn consume_capture(&mut self) -> (written: usize)
        requires
            old(self).wf(),
        ensures
            final(self).wf(),
            final(self).threshold() == old(self).threshold(),
            final(self).pool().limit() == old(self).pool().limit(),
            final(self).pool().on_file() == old(self).pool().on_file(),
            old(self).waiting().len() > old(self).threshold() ==> {
                &&& final(self).waiting() == Seq::<Capture>::empty()
                &&& final(self).rows() == ingested(old(self).rows(), old(self).waiting())
            },
            old(self).waiting().len() <= old(self).threshold() ==> {
                &&& final(self).waiting() == old(self).waiting()
                &&& final(self).rows() == old(self).rows()
            },
            written == final(self).rows().len() - old(self).rows().len(),
    {
        let taken = self.queue.consume_capture(self.write_buffer_size);
        self.ingest(&taken)
    }

    /// The sum and the number of the times that the calls named
    /// `function_name` took: over the rows that the index lists under the
    /// name and that `fetch` shows. Nothing where there is no such row.
    pub fn average(&mut self, function_name: &str) -> (res: Option<Average>)
        requires
            old(self).wf(),
        ensures
            final(self).wf(),
            final(self).rows() == old(self).rows(),
            final(self).waiting() == old(self).waiting(),
            final(self).threshold() == old(self).threshold(),
            final(self).pool()@ == old(self).pool()@,
            final(self).pool().limit() == old(self).pool().limit(),
            final(self).pool().on_file() == old(self).pool().on_file(),
            ({
                let rows = old(self).rows();
                let ids = ids_of(entries(rows), name_key_of(function_name@));
                match res {
                    Some(a) => a.count > 0 && a.count == shown(rows, ids) && a.total() == delta_sum(
                        rows,
                        ids,
                    ),
                    None => shown(rows, ids) == 0,
                }
            }),
    {
        let key = name_key(function_name);
        proof {
            self.lemma_rows();
            assert(self.indexed(key) == ids_of(entries(self.rows()), key));
        }
        let ids: Vec<RID> = match self.name_index.get(key) {
            Some(ids) => copy_ids(ids),
            None => {
                return None;
            },
        };
        let ghost rows = self.rows();
        let mut sum_high: usize = 0;
        let mut sum_low: u128 = 0;
        let mut count: usize = 0;
        let mut i: usize = 0;
        proof {
            assert(ids@.take(0) =~= Seq::<RID>::empty());
        }
        while i < ids.len()
            invariant
                self.wf(),
                self.rows() == rows,
                self.waiting() == old(self).waiting(),
                self.threshold() == old(self).threshold(),
                self.pool()@ == old(self).pool()@,
                self.pool().limit() == old(self).pool().limit(),
                self.pool().on_file() == old(self).pool().on_file(),
                i <= ids@.len(),
                count == shown(rows, ids@.take(i as int)),
                count <= i,
                sum_high <= count,
                sum_high as nat * 0x1_0000_0000_0000_0000_0000_0000_0000_0000 + sum_low as nat
                    == delta_sum(rows, ids@.take(i as int)),
            decreases ids@.len() - i,
        {
            let id = ids[i];
            proof {
                assert(ids@.take(i + 1).drop_last() =~= ids@.take(i as int));
                assert(ids@.take(i + 1).last() == id);
                self.lemma_rows();
            }
            if let Some(row) = self.fetch(id) {
                let delta_index = DELTA_COLUMN;
                let fs = row.fields;
                if fs.len() > delta_index {
                    match fs[delta_index] {
                        FieldType::Epoch(e) => {
                            if e <= u128::MAX - sum_low {
                                sum_low = sum_low + e;
                            } else {
                                sum_low = sum_low - (u128::MAX - e) - 1;
                                sum_high = sum_high + 1;
                            }
                            count = count + 1;
                        },
                        FieldType::Name(_) => {},
                    }
                }
            }
            i += 1;
        }
        proof {
            assert(ids@.take(ids@.len() as int) =~= ids@);
        }
        if count > 0 {
            Some(Average { sum_high, sum_low, count })
        } else {
            None
        }
    }

    /// Sets the most pages that may be resident in the pool at once.
    pub fn set_page_limit(&mut self, limit: usize)
        requires
            old(self).wf(),
        ensures
            final(self).wf(),
            final(self).pool().limit() == limit,
            final(self).pool()@ == old(self).pool()@,
            final(self).pool().on_file() == old(self).pool().on_file(),
            final(self).rows() == old(self).rows(),
            final(self).waiting() == old(self).waiting(),
            final(self).threshold() == old(self).threshold(),
    {
        self.bufferpool.set_page_limit(limit);
    }

    /// The ids of the pages that were stored since this was last called,
    /// oldest first: the pages whose backing files are out of date, which
    /// the caller is to write. Every other stored page is the same in its
    /// file already.
    pub fn take_pending(&mut self) -> (ids: Vec<PageID>)
        requires
            old(self).wf(),
        ensures
            final(self).wf(),
            final(self).pool()@ == old(self).pool()@,
            final(self).pool().stored() == old(self).pool().stored(),
            final(self).pool().limit() == old(self).pool().limit(),
            final(self).pool().pending() == Seq::<PageID>::empty(),
            final(self).pool().on_file() == old(self).pool().stored(),
            final(self).rows() == old(self).rows(),
            final(self).waiting() == old(self).waiting(),
            final(self).threshold() == old(self).threshold(),
            ids@ == old(self).pool().pending(),
            ids@.no_duplicates(),
            forall|i: int|
                0 <= i < ids@.len() ==> old(self).pool().stored().contains_key(
                    #[trigger] ids@[i],
                ),
            forall|pid: PageID| #[trigger]
                old(self).pool().stored().contains_key(pid) && !ids@.contains(pid) ==> {
                    &&& old(self).pool().on_file().contains_key(pid)
                    &&& old(self).pool().on_file()[pid] == old(self).pool().stored()[pid]
                },
    {
        self.bufferpool.take_pending()
    }

    /// The block that is stored under `pid`, if there is one: what the
    /// backing file of the page is to hold.
    pub fn stored_block(&self, pid: PageID) -> (block: Option<[u8; PAGE_SIZE]>)
        ensures
            match block {
                Some(b) => self.pool().stored().contains_key(pid) && b@
                    == self.pool().stored()[pid],
                None => !self.pool().stored().contains_key(pid),
            },
    {
        self.bufferpool.stored_block(pid)
    }

    /// Hands in the block that the backing file of page `pid` holds. A page
    /// that the store already has stays as it is. The rows of the table do
    /// not change. Returns whether the block was taken.
    pub fn supply_block(&mut self, pid: PageID, block: [u8; PAGE_SIZE]) -> (taken: bool)
        requires
            old(self).wf(),
        ensures
            final(self).wf(),
            taken == (pid < usize::MAX && !old(self).pool()@.contains_key(pid)),
            final(self).pool()@ == if taken {
                old(self).pool()@.insert(pid, block@)
            } else {
                old(self).pool()@
            },
            final(self).pool().on_file() == if taken {
                old(self).pool().on_file().insert(pid, block@)
            } else {
                old(self).pool().on_file()
            },
            final(self).pool().limit() == old(self).pool().limit(),
            final(self).rows() == old(self).rows(),
            final(self).waiting() == old(self).waiting(),
            final(self).threshold() == old(self).threshold(),
    {
        let ghost blocks = self.bufferpool@;
        let taken = self.bufferpool.supply_block(pid, block);
        proof {
            let after = self.bufferpool@;
            assert forall|i: nat, c: nat| i < self.row_id && c < 4 implies (#[trigger] slot(
                after,
                i,
                c,
                column_width(c),
                4,
            )) == slot(blocks, i, c, column_width(c), 4) by {
                assert(slot(blocks, i, c, column_width(c), 4) is Some);
            }
            assert forall|i: int| 0 <= i < self.row_id implies #[trigger] table(
                after,
                self.row_id as nat,
            )[i] == table(blocks, self.row_id as nat)[i] by {
                assert(slot(after, i as nat, 0, column_width(0), 4) == slot(
                    blocks,
                    i as nat,
                    0,
                    column_width(0),
                    4,
                ));
                assert(slot(after, i as nat, 1, column_width(1), 4) == slot(
                    blocks,
                    i as nat,
                    1,
                    column_width(1),
                    4,
                ));
                assert(slot(after, i as nat, 2, column_width(2), 4) == slot(
                    blocks,
                    i as nat,
                    2,
                    column_width(2),
                    4,
                ));
                assert(slot(after, i as nat, 3, column_width(3), 4) == slot(
                    blocks,
                    i as nat,
                    3,
                    column_width(3),
                    4,
                ));
            }
            assert(table(after, self.row_id as nat) =~= table(blocks, self.row_id as nat));
        }
        taken
    }
}

} // verus!
