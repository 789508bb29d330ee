//! The columnar layout of a job's output: nine parallel columns per row
//! group, one row group per chunk.

use crate::types::KvLog;
use crate::types::LogChunk;
use crate::types::LogRecord;
use crate::types::Row;
use crate::types::Topic;
use crate::types::borrowed_view;
use crate::types::row_view;
use crate::types::Address;
use crate::types::address_from_bytes;
use crate::types::copy_bytes;
use crate::types::topic_from_bytes;
use crate::types::topics_view;
use std::path::PathBuf;
use vstd::prelude::*;

verus! {

/// `std::path::PathBuf`. It is carried, never read.
#[verifier::external_type_specification]
#[verifier::external_body]
pub struct ExPathBuf(std::path::PathBuf);

/// Number of chunks that may wait between the scan and the writer.
pub const WRITER_QUEUE_CAPACITY: usize = 8;

/// The schema of an output file: nine columns, the topics and the data
/// nullable.
pub const LOGS_MESSAGE_TYPE: &'static str = "
message schema {
    REQUIRED INT64 block_number;
    REQUIRED INT32 tx_index;
    REQUIRED BYTE_ARRAY contract;
    REQUIRED INT32 topic_count;
    OPTIONAL BYTE_ARRAY topic0;
    OPTIONAL BYTE_ARRAY topic1;
    OPTIONAL BYTE_ARRAY topic2;
    OPTIONAL BYTE_ARRAY topic3;
    OPTIONAL BYTE_ARRAY data;
}
";

/// Presence marker of a value that is there.
pub const PRESENT: i16 = 1;

/// Presence marker of a value that is missing.
pub const ABSENT: i16 = 0;

/// Where the output files of the jobs go.
pub struct ResultStorage {
    result_path: PathBuf,
}

impl ResultStorage {
    /// The directory given at construction.
    pub closed spec fn stored_path(&self) -> PathBuf {
        self.result_path
    }

    /// A storage that files each job's output under `result_path`.
    pub fn new(result_path: PathBuf) -> (storage: Self)
        ensures
            storage.stored_path() == result_path,
    {
        ResultStorage { result_path }
    }

    /// The directory under which each job's output is filed by its job id.
    pub fn result_path(&self) -> (path: &PathBuf)
        ensures
            *path == self.stored_path(),
    {
        &self.result_path
    }
}

/// One cell of a nullable column: the value, and the marker that says
/// whether it is there. A missing value is written as the empty byte string,
/// so that values and markers stay aligned.
pub ghost struct Cell {
    pub value: Seq<u8>,
    pub present: i16,
}

/// The nine cells of one output row.
pub ghost struct Cells {
    pub block_number: i64,
    pub tx_index: i32,
    pub contract: Seq<u8>,
    pub topic_count: i32,
    pub topic0: Cell,
    pub topic1: Cell,
    pub topic2: Cell,
    pub topic3: Cell,
    pub data: Cell,
}

/// The cell of a missing value: the empty placeholder with marker 0.
pub open spec fn absent_cell() -> Cell {
    Cell { value: Seq::empty(), present: ABSENT }
}

/// The cell of a value that is there: the value with marker 1.
pub open spec fn present_cell(value: Seq<u8>) -> Cell {
    Cell { value, present: PRESENT }
}

/// The cell of the topic at `index`: missing where the record has fewer
/// topics.
pub open spec fn topic_cell(record: LogRecord, index: int) -> Cell {
    if 0 <= index < record.topics.len() {
        present_cell(record.topics[index])
    } else {
        absent_cell()
    }
}

/// The cell of the data: missing where the record has none or has the empty
/// byte string.
pub open spec fn data_cell(record: LogRecord) -> Cell {
    optional_data_cell(record.data)
}

/// The cells of a row. Block number, transaction index and topic count are
/// stored in signed columns of the same width; a number above the signed
/// range keeps its bits.
pub open spec fn row_cells(row: Row) -> Cells {
    Cells {
        block_number: row.block as i64,
        tx_index: row.tx_index as i32,
        contract: row.log.address,
        topic_count: row.log.topics.len() as i32,
        topic0: topic_cell(row.log, 0),
        topic1: topic_cell(row.log, 1),
        topic2: topic_cell(row.log, 2),
        topic3: topic_cell(row.log, 3),
        data: data_cell(row.log),
    }
}

/// The cells of a list of rows, row by row.
pub open spec fn rows_cells(rows: Seq<Row>) -> Seq<Cells> {
    Seq::new(rows.len(), |i: int| row_cells(rows[i]))
}

/// A nullable column of byte strings: values and presence markers, one of
/// each per row.
#[derive(Debug)]
pub struct OptionalColumn {
    pub values: Vec<Vec<u8>>,
    pub present: Vec<i16>,
}

impl OptionalColumn {
    /// Values and markers have the same length.
    pub open spec fn wf(&self) -> bool {
        self.values@.len() == self.present@.len()
    }

    /// The number of rows of a well-formed column.
    pub open spec fn len(&self) -> nat {
        self.values@.len()
    }

    /// The cell at row `i`.
    pub open spec fn cell(&self, i: int) -> Cell {
        Cell { value: self.values@[i]@, present: self.present@[i] }
    }

    /// A column without rows.
    pub fn new() -> (column: Self)
        ensures
            column.wf(),
            column.len() == 0,
    {
        OptionalColumn { values: Vec::new(), present: Vec::new() }
    }
}

/// The nine columns of one row group.
#[derive(Debug)]
pub struct ColumnBatch {
    pub block_number: Vec<i64>,
    pub tx_index: Vec<i32>,
    pub contract: Vec<Vec<u8>>,
    pub topic_count: Vec<i32>,
    pub topic0: OptionalColumn,
    pub topic1: OptionalColumn,
    pub topic2: OptionalColumn,
    pub topic3: OptionalColumn,
    pub data: OptionalColumn,
}

impl ColumnBatch {
    /// The number of rows: the length of the first column.
    pub open spec fn len(&self) -> nat {
        self.block_number@.len()
    }

    /// All columns have the same number of rows, and each nullable column
    /// has one marker per value.
    pub open spec fn wf(&self) -> bool {
        &&& self.tx_index@.len() == self.len()
        &&& self.contract@.len() == self.len()
        &&& self.topic_count@.len() == self.len()
        &&& self.topic0.wf() && self.topic0.len() == self.len()
        &&& self.topic1.wf() && self.topic1.len() == self.len()
        &&& self.topic2.wf() && self.topic2.len() == self.len()
        &&& self.topic3.wf() && self.topic3.len() == self.len()
        &&& self.data.wf() && self.data.len() == self.len()
    }

    /// The cells of row `i`.
    pub open spec fn cells(&self, i: int) -> Cells {
        Cells {
            block_number: self.block_number@[i],
            tx_index: self.tx_index@[i],
            contract: self.contract@[i]@,
            topic_count: self.topic_count@[i],
            topic0: self.topic0.cell(i),
            topic1: self.topic1.cell(i),
            topic2: self.topic2.cell(i),
            topic3: self.topic3.cell(i),
            data: self.data.cell(i),
        }
    }
}

impl View for ColumnBatch {
    type V = Seq<Cells>;

    /// The rows of the batch, each as its nine cells.
    open spec fn view(&self) -> Seq<Cells> {
        Seq::new(self.len(), |i: int| self.cells(i))
    }
}

/// The byte strings of a column of byte buffers.
pub open spec fn column_view(column: Seq<Vec<u8>>) -> Seq<Seq<u8>> {
    Seq::new(column.len(), |i: int| column[i]@)
}

/// The bytes of an optional topic.
pub open spec fn topic_view(topic: Option<&Topic>) -> Option<Seq<u8>> {
    match topic {
        Some(bytes) => Some(bytes@),
        None => None,
    }
}

/// The cell of an optional topic.
pub open spec fn optional_topic_cell(topic: Option<Seq<u8>>) -> Cell {
    match topic {
        Some(bytes) => present_cell(bytes),
        None => absent_cell(),
    }
}

/// The cell of optional data: missing where there is none or it is empty.
pub open spec fn optional_data_cell(data: Option<Seq<u8>>) -> Cell {
    match data {
        Some(bytes) => if bytes.len() > 0 {
            present_cell(bytes)
        } else {
            absent_cell()
        },
        None => absent_cell(),
    }
}

/// Appends one topic cell to a nullable column: the topic with marker 1, or
/// the empty placeholder with marker 0 where the record has no such topic.
pub fn save_topic(col: &mut Vec<Vec<u8>>, def_level_col: &mut Vec<i16>, topic: Option<&Topic>)
    ensures
        column_view(final(col)@) == column_view(old(col)@).push(
            optional_topic_cell(topic_view(topic)).value,
        ),
        final(def_level_col)@ == old(def_level_col)@.push(
            optional_topic_cell(topic_view(topic)).present,
        ),
{
    let ghost before = column_view(col@);
    match topic {
        Some(bytes) => {
            let value = copy_bytes(bytes.as_slice());
            col.push(value);
            def_level_col.push(PRESENT);
            assert(column_view(col@) =~= before.push(bytes@));
        },
        None => {
            col.push(Vec::new());
            def_level_col.push(ABSENT);
            assert(column_view(col@) =~= before.push(Seq::empty()));
        },
    }
}

/// Appends one data cell to a nullable column: the bytes with marker 1, or
/// the empty placeholder with marker 0 where there is no data or it is
/// empty.
pub fn save_binary(col: &mut Vec<Vec<u8>>, def_level_col: &mut Vec<i16>, binary: Option<&Vec<u8>>)
    ensures
        column_view(final(col)@) == column_view(old(col)@).push(
            optional_data_cell(borrowed_view(binary)).value,
        ),
        final(def_level_col)@ == old(def_level_col)@.push(
            optional_data_cell(borrowed_view(binary)).present,
        ),
{
    let ghost before = column_view(col@);
    match binary {
        Some(bytes) => {
            if bytes.len() == 0 {
                col.push(Vec::new());
                def_level_col.push(ABSENT);
                assert(column_view(col@) =~= before.push(Seq::empty()));
            } else {
                let value = copy_bytes(bytes.as_slice());
                col.push(value);
                def_level_col.push(PRESENT);
                assert(column_view(col@) =~= before.push(bytes@));
            }
        },
        None => {
            col.push(Vec::new());
            def_level_col.push(ABSENT);
            assert(column_view(col@) =~= before.push(Seq::empty()));
        },
    }
}

/// A column that grew by one value holds the old values and then the new
/// one.
proof fn lemma_column_pushed(before: Seq<Vec<u8>>, after: Seq<Vec<u8>>, value: Seq<u8>)
    requires
        column_view(after) == column_view(before).push(value),
    ensures
        after.len() == before.len() + 1,
        forall|j: int| 0 <= j < before.len() ==> (#[trigger] after[j])@ == before[j]@,
        after[before.len() as int]@ == value,
{
    assert(column_view(after).len() == after.len());
    assert(column_view(before).len() == before.len());
    assert forall|j: int| 0 <= j < before.len() implies (#[trigger] after[j])@ == before[j]@ by {
        assert(column_view(after)[j] == column_view(before)[j]);
    }
    assert(column_view(after)[before.len() as int] == value);
}

/// The topic of a log at `index`, if it has that many.
pub fn topic_at(log: &KvLog, index: usize) -> (topic: Option<&Topic>)
    ensures
        optional_topic_cell(topic_view(topic)) == topic_cell(log@, index as int),
{
    if index < log.topics.len() {
        Some(&log.topics[index])
    } else {
        None
    }
}

/// The cell at row `i` of a column given as values and markers.
pub open spec fn cell_at(values: Seq<Vec<u8>>, markers: Seq<i16>, i: int) -> Cell {
    Cell { value: values[i]@, present: markers[i] }
}

/// Lays the rows of a chunk out as nine parallel columns.
pub fn build_columns(chunk: &LogChunk) -> (batch: ColumnBatch)
    ensures
        batch.wf(),
        batch@ == rows_cells(chunk@),
{
    let n: usize = chunk.txs.len();
    let ghost rows = chunk@;
    let mut block_n_col: Vec<i64> = Vec::with_capacity(n);
    let mut tx_n_col: Vec<i32> = Vec::with_capacity(n);
    let mut ctr_col: Vec<Vec<u8>> = Vec::with_capacity(n);
    let mut topic_count_col: Vec<i32> = Vec::with_capacity(n);
    let mut topic_0_col: Vec<Vec<u8>> = Vec::with_capacity(n);
    let mut topic_0_def_level_col: Vec<i16> = Vec::with_capacity(n);
    let mut topic_1_col: Vec<Vec<u8>> = Vec::with_capacity(n);
    let mut topic_1_def_level_col: Vec<i16> = Vec::with_capacity(n);
    let mut topic_2_col: Vec<Vec<u8>> = Vec::with_capacity(n);
    let mut topic_2_def_level_col: Vec<i16> = Vec::with_capacity(n);
    let mut topic_3_col: Vec<Vec<u8>> = Vec::with_capacity(n);
    let mut topic_3_def_level_col: Vec<i16> = Vec::with_capacity(n);
    let mut data_col: Vec<Vec<u8>> = Vec::with_capacity(n);
    let mut data_def_level_col: Vec<i16> = Vec::with_capacity(n);
    let mut i: usize = 0;
    while i < n
        invariant
            n == chunk.txs@.len(),
            rows == chunk@,
            i <= n,
            block_n_col@.len() == i,
            tx_n_col@.len() == i,
            ctr_col@.len() == i,
            topic_count_col@.len() == i,
            topic_0_col@.len() == i && topic_0_def_level_col@.len() == i,
            topic_1_col@.len() == i && topic_1_def_level_col@.len() == i,
            topic_2_col@.len() == i && topic_2_def_level_col@.len() == i,
            topic_3_col@.len() == i && topic_3_def_level_col@.len() == i,
            data_col@.len() == i && data_def_level_col@.len() == i,
            forall|j: int|
                0 <= j < i ==> {
                    &&& #[trigger] block_n_col@[j] == row_cells(rows[j]).block_number
                    &&& tx_n_col@[j] == row_cells(rows[j]).tx_index
                    &&& ctr_col@[j]@ == row_cells(rows[j]).contract
                    &&& topic_count_col@[j] == row_cells(rows[j]).topic_count
                    &&& cell_at(topic_0_col@, topic_0_def_level_col@, j) == row_cells(rows[j]).topic0
                    &&& cell_at(topic_1_col@, topic_1_def_level_col@, j) == row_cells(rows[j]).topic1
                    &&& cell_at(topic_2_col@, topic_2_def_level_col@, j) == row_cells(rows[j]).topic2
                    &&& cell_at(topic_3_col@, topic_3_def_level_col@, j) == row_cells(rows[j]).topic3
                    &&& cell_at(data_col@, data_def_level_col@, j) == row_cells(rows[j]).data
                },
        decreases n - i,
    {
        let ghost c0 = ctr_col@;
        let ghost t0 = topic_0_col@;
        let ghost t1 = topic_1_col@;
        let ghost t2 = topic_2_col@;
        let ghost t3 = topic_3_col@;
        let ghost d0 = data_col@;
        let block_n: u64 = chunk.txs[i].0;
        let tx_n: u32 = chunk.txs[i].1;
        let log = &chunk.txs[i].2;
        block_n_col.push(#[verifier::truncate] (block_n as i64));
        tx_n_col.push(#[verifier::truncate] (tx_n as i32));
        ctr_col.push(copy_bytes(log.address.as_slice()));
        topic_count_col.push(#[verifier::truncate] (log.topics.len() as i32));
        save_topic(&mut topic_0_col, &mut topic_0_def_level_col, topic_at(log, 0));
        save_topic(&mut topic_1_col, &mut topic_1_def_level_col, topic_at(log, 1));
        save_topic(&mut topic_2_col, &mut topic_2_def_level_col, topic_at(log, 2));
        save_topic(&mut topic_3_col, &mut topic_3_def_level_col, topic_at(log, 3));
        save_binary(&mut data_col, &mut data_def_level_col, log.data.as_ref());
        proof {
            lemma_column_pushed(t0, topic_0_col@, topic_cell(log@, 0).value);
            lemma_column_pushed(t1, topic_1_col@, topic_cell(log@, 1).value);
            lemma_column_pushed(t2, topic_2_col@, topic_cell(log@, 2).value);
            lemma_column_pushed(t3, topic_3_col@, topic_cell(log@, 3).value);
            lemma_column_pushed(d0, data_col@, data_cell(log@).value);
            assert(rows[i as int].log == log@);
            assert(topics_view(log.topics@).len() == log.topics@.len());
            assert forall|j: int| 0 <= j < i implies (#[trigger] ctr_col@[j])@ == row_cells(rows[j]).contract by {
                assert(block_n_col@[j] == row_cells(rows[j]).block_number);
            }
        }
        i = i + 1;
    }
    let batch = ColumnBatch {
        block_number: block_n_col,
        tx_index: tx_n_col,
        contract: ctr_col,
        topic_count: topic_count_col,
        topic0: OptionalColumn { values: topic_0_col, present: topic_0_def_level_col },
        topic1: OptionalColumn { values: topic_1_col, present: topic_1_def_level_col },
        topic2: OptionalColumn { values: topic_2_col, present: topic_2_def_level_col },
        topic3: OptionalColumn { values: topic_3_col, present: topic_3_def_level_col },
        data: OptionalColumn { values: data_col, present: data_def_level_col },
    };
    proof {
        assert forall|j: int| 0 <= j < n implies batch.cells(j) == row_cells(rows[j]) by {
            assert(batch.block_number@[j] == row_cells(rows[j]).block_number);
        }
        assert(batch@ =~= rows_cells(chunk@));
    }
    batch
}

impl Cells {
    /// The cell of the topic column `index`, one of the four.
    pub open spec fn topic(self, index: int) -> Cell {
        if index == 0 {
            self.topic0
        } else if index == 1 {
            self.topic1
        } else if index == 2 {
            self.topic2
        } else {
            self.topic3
        }
    }

    /// The cells of an output row: a contract of twenty bytes, a topic count
    /// of at most four, just that many leading topic cells present, each
    /// with thirty-two bytes, every cell marked 0 or 1, and a placeholder in
    /// each missing one.
    pub open spec fn wf(self) -> bool {
        &&& self.contract.len() == 20
        &&& 0 <= self.topic_count <= 4
        &&& forall|k: int|
            0 <= k < 4 ==> {
                let cell = #[trigger] self.topic(k);
                if k < self.topic_count {
                    cell.present == PRESENT && cell.value.len() == 32
                } else {
                    cell == absent_cell()
                }
            }
        &&& (self.data.present == PRESENT && self.data.value.len() > 0) || self.data == absent_cell()
    }

    /// The row that well-formed cells spell out.
    pub open spec fn row(self) -> Row {
        Row {
            block: self.block_number as u64,
            tx_index: self.tx_index as u32,
            log: LogRecord {
                address: self.contract,
                topics: Seq::new(self.topic_count as nat, |k: int| self.topic(k).value),
                data: if self.data.present == PRESENT {
                    Some(self.data.value)
                } else {
                    None
                },
            },
        }
    }
}

/// A record as the columns can hold it: data that is there but empty is
/// stored like data that is missing.
pub open spec fn stored_record(record: LogRecord) -> LogRecord {
    LogRecord {
        address: record.address,
        topics: record.topics,
        data: match record.data {
            Some(bytes) => if bytes.len() > 0 {
                Some(bytes)
            } else {
                None
            },
            None => None,
        },
    }
}

/// Reading a row back from its cells gives the position and the record
/// again, the address, every topic and the data, with empty data read as no
/// data.
pub proof fn lemma_cells_round_trip(row: Row)
    requires
        row.log.wf(),
    ensures
        row_cells(row).wf(),
        row_cells(row).row() == (Row {
            block: row.block,
            tx_index: row.tx_index,
            log: stored_record(row.log),
        }),
        row.log.data != Some(Seq::<u8>::empty()) ==> row_cells(row).row() == row,
{
    let cells = row_cells(row);
    let block = row.block;
    let tx_index = row.tx_index;
    assert((block as i64) as u64 == block) by (bit_vector);
    assert((tx_index as i32) as u32 == tx_index) by (bit_vector);
    assert forall|k: int| 0 <= k < 4 implies #[trigger] cells.topic(k) == topic_cell(row.log, k) by {}
    assert(cells.row().log.topics =~= row.log.topics);
    if row.log.data is Some && row.log.data != Some(Seq::<u8>::empty()) {
        assert(row.log.data.unwrap().len() > 0) by {
            if row.log.data.unwrap().len() == 0 {
                assert(row.log.data.unwrap() =~= Seq::<u8>::empty());
            }
        }
    }
}

/// Where a record has fewer than four topics, each topic column from its
/// topic count on holds the empty placeholder with marker 0 in that row;
/// the other cells of the row are what they are for any record: position,
/// address, topic count, the topics it has, and the data.
pub proof fn lemma_missing_topics(batch: ColumnBatch, rows: Seq<Row>, i: int, k: int)
    requires
        batch@ == rows_cells(rows),
        0 <= i < rows.len(),
        rows[i].log.topics.len() <= k < 4,
    ensures
        batch.cells(i).topic(k).present == ABSENT,
        batch.cells(i).topic(k).value == Seq::<u8>::empty(),
        batch.cells(i).block_number == rows[i].block as i64,
        batch.cells(i).tx_index == rows[i].tx_index as i32,
        batch.cells(i).contract == rows[i].log.address,
        batch.cells(i).topic_count == rows[i].log.topics.len() as i32,
        forall|j: int|
            0 <= j < rows[i].log.topics.len() && j < 4 ==> #[trigger] batch.cells(i).topic(j)
                == present_cell(rows[i].log.topics[j]),
        batch.cells(i).data == data_cell(rows[i].log),
{
    assert(batch@.len() == rows.len());
    assert(batch@[i] == batch.cells(i));
    assert(rows_cells(rows)[i] == row_cells(rows[i]));
}

impl ColumnBatch {
    /// Whether all columns have the same number of rows.
    pub fn is_wf(&self) -> (ok: bool)
        ensures
            ok == self.wf(),
    {
        let n: usize = self.block_number.len();
        self.tx_index.len() == n && self.contract.len() == n && self.topic_count.len() == n
            && self.topic0.values.len() == n && self.topic0.present.len() == n
            && self.topic1.values.len() == n && self.topic1.present.len() == n
            && self.topic2.values.len() == n && self.topic2.present.len() == n
            && self.topic3.values.len() == n && self.topic3.present.len() == n
            && self.data.values.len() == n && self.data.present.len() == n
    }

    /// The number of rows.
    pub fn row_count(&self) -> (n: usize)
        ensures
            n == self.len(),
    {
        self.block_number.len()
    }

    /// The topic column `index`, one of the four.
    fn topic_column(&self, index: usize) -> (column: &OptionalColumn)
        requires
            index < 4,
        ensures
            forall|i: int| column.cell(i) == #[trigger] self.cells(i).topic(index as int),
            self.wf() ==> column.wf() && column.len() == self.len(),
    {
        if index == 0 {
            &self.topic0
        } else if index == 1 {
            &self.topic1
        } else if index == 2 {
            &self.topic2
        } else {
            &self.topic3
        }
    }

    /// Reads row `i` back from the columns: the position and the record
    /// that its cells spell out. There is none where the columns differ in
    /// length, the batch has no such row, or the cells are not those of an
    /// output row.
    pub fn row(&self, i: usize) -> (r: Option<(u64, u32, KvLog)>)
        ensures
            r is Some <==> self.wf() && i < self.len() && self.cells(i as int).wf(),
            r matches Some(tx) ==> row_view(tx) == self.cells(i as int).row(),
    {
        if !self.is_wf() || i >= self.block_number.len() {
            return None;
        }
        let ghost cells = self.cells(i as int);
        let block: u64 = #[verifier::truncate] (self.block_number[i] as u64);
        let tx_index: u32 = #[verifier::truncate] (self.tx_index[i] as u32);
        let address: Address = match address_from_bytes(self.contract[i].as_slice()) {
            Some(address) => address,
            None => {
                return None;
            },
        };
        let count: i32 = self.topic_count[i];
        if count < 0 || count > 4 {
            return None;
        }
        let mut topics: Vec<Topic> = Vec::new();
        let mut k: usize = 0;
        while k < 4
            invariant
                self.wf(),
                i < self.len(),
                cells == self.cells(i as int),
                0 <= count <= 4,
                count == cells.topic_count,
                k <= 4,
                topics@.len() == (if k < count { k as int } else { count as int }),
                forall|j: int| 0 <= j < topics@.len() ==> (#[trigger] topics@[j])@ == cells.topic(j).value,
                forall|j: int|
                    0 <= j < k ==> {
                        let cell = #[trigger] cells.topic(j);
                        if j < count {
                            cell.present == PRESENT && cell.value.len() == 32
                        } else {
                            cell == absent_cell()
                        }
                    },
            decreases 4 - k,
        {
            let column = self.topic_column(k);
            let marker: i16 = column.present[i];
            let value = &column.values[i];
            assert(column.cell(i as int) == cells.topic(k as int));
            if (k as i32) < count {
                if marker != PRESENT {
                    return None;
                }
                match topic_from_bytes(value.as_slice()) {
                    Some(topic) => {
                        topics.push(topic);
                    },
                    None => {
                        return None;
                    },
                }
            } else {
                if marker != ABSENT || value.len() != 0 {
                    return None;
                }
                assert(cells.topic(k as int).value =~= Seq::<u8>::empty());
            }
            k = k + 1;
        }
        let marker: i16 = self.data.present[i];
        let value = &self.data.values[i];
        let data: Option<Vec<u8>> = if marker == PRESENT && value.len() > 0 {
            Some(copy_bytes(value.as_slice()))
        } else if marker == ABSENT && value.len() == 0 {
            assert(cells.data.value =~= Seq::<u8>::empty());
            None
        } else {
            return None;
        };
        let log = KvLog { address, topics, data };
        proof {
            assert(log@.topics =~= cells.row().log.topics);
            assert(cells.wf());
        }
        Some((block, tx_index, log))
    }
}

/// What the writer does with what it takes from its queue.
#[derive(Debug)]
pub enum WriterAction {
    /// Write these columns as the next row group.
    WriteRowGroup(ColumnBatch),
    /// Close the file and end.
    Close,
}

/// Decides on one message of the queue: a chunk becomes one row group; the
/// end marker, or a queue that no sender holds any more, closes the file.
pub fn writer_action(message: Option<Option<LogChunk>>) -> (action: WriterAction)
    ensures
        match message {
            Some(Some(chunk)) => action matches WriterAction::WriteRowGroup(batch) && batch.wf()
                && batch@ == rows_cells(chunk@),
            _ => action is Close,
        },
{
    match message {
        Some(Some(chunk)) => WriterAction::WriteRowGroup(build_columns(&chunk)),
        _ => WriterAction::Close,
    }
}

/// The values of the cells that are there, in row order: what a columnar
/// file stores for a nullable column beside its markers.
pub open spec fn packed(cells: Seq<Cell>) -> Seq<Seq<u8>>
    decreases cells.len(),
{
    if cells.len() == 0 {
        Seq::empty()
    } else if cells.last().present == PRESENT {
        packed(cells.drop_last()).push(cells.last().value)
    } else {
        packed(cells.drop_last())
    }
}

/// The cells that markers and packed values spell out: each marker 1 takes
/// the next value, every other marker gives a missing cell.
pub open spec fn unpacked(values: Seq<Seq<u8>>, markers: Seq<i16>) -> Seq<Cell>
    decreases markers.len(),
{
    if markers.len() == 0 {
        Seq::empty()
    } else if markers.last() == PRESENT {
        if values.len() == 0 {
            unpacked(values, markers.drop_last()).push(absent_cell())
        } else {
            unpacked(values.drop_last(), markers.drop_last()).push(present_cell(values.last()))
        }
    } else {
        unpacked(values, markers.drop_last()).push(absent_cell())
    }
}

/// The markers of a list of cells.
pub open spec fn markers_of(cells: Seq<Cell>) -> Seq<i16> {
    Seq::new(cells.len(), |i: int| cells[i].present)
}

/// Each cell is there with marker 1 or is the missing cell.
pub open spec fn cells_wf(cells: Seq<Cell>) -> bool {
    forall|i: int|
        0 <= i < cells.len() ==> (#[trigger] cells[i]).present == PRESENT || cells[i] == absent_cell()
}

/// Packing loses nothing: the markers and the packed values of a column
/// spell out its cells again.
pub proof fn lemma_unpack_packed(cells: Seq<Cell>)
    requires
        cells_wf(cells),
    ensures
        unpacked(packed(cells), markers_of(cells)) == cells,
    decreases cells.len(),
{
    let markers = markers_of(cells);
    if cells.len() > 0 {
        let rest = cells.drop_last();
        lemma_unpack_packed(rest);
        assert(markers.drop_last() =~= markers_of(rest));
        assert(markers.last() == cells.last().present);
        if cells.last().present == PRESENT {
            let values = packed(cells);
            assert(values.drop_last() =~= packed(rest));
            assert(values.last() == cells.last().value);
        }
        assert(unpacked(packed(cells), markers) =~= cells);
    } else {
        assert(unpacked(packed(cells), markers) =~= cells);
    }
}

impl OptionalColumn {
    /// The cells of a well-formed column.
    pub open spec fn cells(&self) -> Seq<Cell> {
        Seq::new(self.values@.len(), |i: int| self.cell(i))
    }

    /// Whether there is one marker for each value.
    pub fn is_wf(&self) -> (ok: bool)
        ensures
            ok == self.wf(),
    {
        self.values.len() == self.present.len()
    }

    /// The values that are there, in row order, without the placeholders
    /// of the missing ones: one value for each marker 1.
    pub fn packed_values(&self) -> (values: Option<Vec<Vec<u8>>>)
        ensures
            values is Some <==> self.wf(),
            values matches Some(v) ==> column_view(v@) == packed(self.cells()),
    {
        if self.values.len() != self.present.len() {
            return None;
        }
        let ghost cells = self.cells();
        let mut out: Vec<Vec<u8>> = Vec::new();
        let mut i: usize = 0;
        assert(cells.take(0) =~= Seq::<Cell>::empty());
        while i < self.values.len()
            invariant
                self.wf(),
                cells == self.cells(),
                i <= self.values@.len(),
                column_view(out@) == packed(cells.take(i as int)),
            decreases self.values@.len() - i,
        {
            let ghost before = column_view(out@);
            proof {
                assert(cells.take(i + 1).drop_last() =~= cells.take(i as int));
                assert(cells.take(i + 1).last() == self.cell(i as int));
            }
            if self.present[i] == PRESENT {
                out.push(copy_bytes(self.values[i].as_slice()));
                assert(column_view(out@) =~= before.push(self.values@[i as int]@));
            }
            i = i + 1;
        }
        assert(cells.take(cells.len() as int) =~= cells);
        Some(out)
    }
}

} // verus!
