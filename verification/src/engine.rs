//! The scan of one job: from the entries of the store, in key order, to the
//! chunks of rows that the writer receives.

use crate::codec::MalformedKeyError;
use crate::codec::decode_key;
use crate::codec::encode_key;
use crate::codec::key_bytes;
use crate::codec::key_fields;
use crate::payload::PayloadDecodeError;
use crate::payload::decode_logs;
use crate::payload::filter_logs;
use crate::payload::filter_view;
use crate::payload::logs_view;
use crate::payload::payload_records;
use crate::payload::retained;
use crate::types::Address;
use crate::types::KvLog;
use crate::types::LogChunk;
use crate::types::LogRecord;
use crate::types::Row;
use crate::types::row_view;
use crate::types::rows_view;
use crate::codec::bytes_lt;
use crate::codec::key_before;
use crate::storage::ColumnBatch;
use crate::storage::ResultStorage;
use crate::storage::WriterAction;
use crate::storage::rows_cells;
use crate::storage::writer_action;
use std::path::PathBuf;
use std::sync::Arc;
use vstd::prelude::*;

verus! {

/// A chunk is handed to the writer as soon as it holds more rows than this.
pub const LOG_CHUNK_SIZE: usize = 10_000;

/// Why a scan was given up.
#[derive(Debug, Clone, Copy, PartialEq, Eq)]
pub enum JobError {
    /// An entry's key is too short to hold a position.
    MalformedKey(MalformedKeyError),
    /// An entry's payload is not a list of log records.
    PayloadDecode(PayloadDecodeError),
}

/// The rows of the records filed under one position.
pub open spec fn positioned(block: u64, tx_index: u32, records: Seq<LogRecord>) -> Seq<Row> {
    Seq::new(records.len(), |i: int| Row { block, tx_index, log: records[i] })
}

/// What one entry of the store means to a scan.
pub ghost enum EntryOutcome {
    /// The entry lies after the last block: the scan ends, the entry gives
    /// no rows.
    Stop,
    /// The entry gives these rows, none where its payload is empty.
    Rows(Seq<Row>),
    /// The entry cannot be read: the scan fails.
    Fail(JobError),
}

/// The meaning of an entry: the key is decoded first; an entry after
/// `to_block` stops the scan; an empty payload gives no rows; any other
/// payload is decoded and filtered.
pub open spec fn entry_outcome(
    key: Seq<u8>,
    value: Seq<u8>,
    to_block: u64,
    filter: Option<Seq<u8>>,
) -> EntryOutcome {
    match key_fields(key) {
        None => EntryOutcome::Fail(
            JobError::MalformedKey(MalformedKeyError { len: key.len() as usize }),
        ),
        Some((block, tx_index)) => if block > to_block {
            EntryOutcome::Stop
        } else if value.len() == 0 {
            EntryOutcome::Rows(Seq::empty())
        } else {
            match payload_records(value) {
                Err(e) => EntryOutcome::Fail(JobError::PayloadDecode(e)),
                Ok(records) => EntryOutcome::Rows(
                    positioned(block, tx_index, retained(records, filter)),
                ),
            }
        },
    }
}

/// The rows gathered so far: the chunks already handed on, and the rows
/// that wait in the open chunk.
pub ghost struct Batch {
    pub sent: Seq<Seq<Row>>,
    pub open: Seq<Row>,
}

/// The batch of a scan that has seen nothing.
pub open spec fn empty_batch() -> Batch {
    Batch { sent: Seq::empty(), open: Seq::empty() }
}

/// Adds the rows of one entry. The open chunk is handed on when it then
/// holds more than `LOG_CHUNK_SIZE` rows; with exactly that many it stays
/// open.
pub open spec fn batch_add(batch: Batch, rows: Seq<Row>) -> Batch {
    let all = batch.open + rows;
    if all.len() > LOG_CHUNK_SIZE {
        Batch { sent: batch.sent.push(all), open: Seq::empty() }
    } else {
        Batch { sent: batch.sent, open: all }
    }
}

/// The chunks of a finished scan: the open chunk is handed on unless empty.
pub open spec fn batch_close(batch: Batch) -> Seq<Seq<Row>> {
    if batch.open.len() > 0 {
        batch.sent.push(batch.open)
    } else {
        batch.sent
    }
}

/// The batch with which a scan ends that starts with `batch` and is given
/// `entries` in order, or the error that ends it. The scan ends at the
/// first entry after `to_block`, or with the last entry.
pub open spec fn scan_end(
    batch: Batch,
    entries: Seq<(Seq<u8>, Seq<u8>)>,
    to_block: u64,
    filter: Option<Seq<u8>>,
) -> Result<Batch, JobError>
    decreases entries.len(),
{
    if entries.len() == 0 {
        Ok(batch)
    } else {
        match entry_outcome(entries[0].0, entries[0].1, to_block, filter) {
            EntryOutcome::Stop => Ok(batch),
            EntryOutcome::Fail(e) => Err(e),
            EntryOutcome::Rows(rows) => scan_end(
                batch_add(batch, rows),
                entries.drop_first(),
                to_block,
                filter,
            ),
        }
    }
}

/// The chunks that a scan hands on when it starts with `batch` and is given
/// `entries` in order, or the error that ends it: the chunks handed on
/// during the scan, then the rows that remain, if any.
pub open spec fn scan_from(
    batch: Batch,
    entries: Seq<(Seq<u8>, Seq<u8>)>,
    to_block: u64,
    filter: Option<Seq<u8>>,
) -> Result<Seq<Seq<Row>>, JobError> {
    match scan_end(batch, entries, to_block, filter) {
        Ok(end) => Ok(batch_close(end)),
        Err(e) => Err(e),
    }
}

/// The rows that a scan of `entries` gives, or the error that ends it.
pub open spec fn scan_rows(
    entries: Seq<(Seq<u8>, Seq<u8>)>,
    to_block: u64,
    filter: Option<Seq<u8>>,
) -> Result<Seq<Row>, JobError>
    decreases entries.len(),
{
    if entries.len() == 0 {
        Ok(Seq::empty())
    } else {
        match entry_outcome(entries[0].0, entries[0].1, to_block, filter) {
            EntryOutcome::Stop => Ok(Seq::empty()),
            EntryOutcome::Fail(e) => Err(e),
            EntryOutcome::Rows(rows) => match scan_rows(entries.drop_first(), to_block, filter) {
                Ok(rest) => Ok(rows + rest),
                Err(e) => Err(e),
            },
        }
    }
}

/// A running count that stops at the largest number it can hold.
pub open spec fn saturated(count: int) -> u64 {
    if count > u64::MAX {
        u64::MAX
    } else {
        count as u64
    }
}

/// What the driver of a scan does after an entry.
pub enum ScanStep {
    /// The entry lies after the last block: read no further.
    Stop,
    /// Read the next entry.
    Continue,
    /// Hand this chunk to the writer, then read the next entry.
    Flush(LogChunk),
}

/// The state of one job's scan.
pub struct JobScan {
    from_block: u64,
    to_block: u64,
    filter: Option<Address>,
    buffer: Vec<(u64, u32, KvLog)>,
    log_count: u64,
}

impl JobScan {
    /// The first block of the job.
    pub closed spec fn first_block(&self) -> u64 {
        self.from_block
    }

    /// The last block of the job.
    pub closed spec fn last_block(&self) -> u64 {
        self.to_block
    }

    /// The address that rows must have, if any.
    pub closed spec fn wanted(&self) -> Option<Seq<u8>> {
        filter_view(self.filter)
    }

    /// The rows that wait in the open chunk.
    pub closed spec fn buffered(&self) -> Seq<Row> {
        rows_view(self.buffer@)
    }

    /// The number of rows produced so far, stopping at the largest number
    /// that fits.
    pub closed spec fn counted(&self) -> u64 {
        self.log_count
    }

    /// The scan of the blocks `from_block` to `to_block`, both included,
    /// for the logs of `filter` or, without one, for all logs.
    pub fn new(from_block: u64, to_block: u64, filter: Option<Address>) -> (scan: Self)
        ensures
            scan.first_block() == from_block,
            scan.last_block() == to_block,
            scan.wanted() == filter_view(filter),
            scan.buffered() == Seq::<Row>::empty(),
            scan.counted() == 0,
    {
        let scan = JobScan { from_block, to_block, filter, buffer: Vec::new(), log_count: 0 };
        assert(scan.buffered() =~= Seq::<Row>::empty());
        scan
    }

    /// The key at which the cursor is placed: the first position of the
    /// first block.
    pub fn start_key(&self) -> (key: Vec<u8>)
        ensures
            key@ == key_bytes(self.first_block(), 0),
    {
        encode_key(self.from_block, 0)
    }

    /// The number of rows produced so far.
    pub fn log_count(&self) -> (count: u64)
        ensures
            count == self.counted(),
    {
        self.log_count
    }
}

impl JobScan {
    /// Takes the next entry of the store. The key is decoded first: a key
    /// of fewer than twelve bytes fails the scan. An entry after the last
    /// block stops it and gives no rows. An empty payload gives no rows.
    /// Any other payload is decoded, which may fail the scan, and its logs
    /// that pass the filter join the open chunk, in their order. The chunk
    /// is handed out when it then holds more than `LOG_CHUNK_SIZE` rows.
    /// A scan that stops or fails is left as it was.
    pub fn on_entry(&mut self, key: &[u8], value: &[u8]) -> (step: Result<ScanStep, JobError>)
        ensures
            final(self).first_block() == old(self).first_block(),
            final(self).last_block() == old(self).last_block(),
            final(self).wanted() == old(self).wanted(),
            match entry_outcome(key@, value@, old(self).last_block(), old(self).wanted()) {
                EntryOutcome::Fail(e) => {
                    &&& step matches Err(err) && err == e
                    &&& final(self).buffered() == old(self).buffered()
                    &&& final(self).counted() == old(self).counted()
                },
                EntryOutcome::Stop => {
                    &&& step matches Ok(ScanStep::Stop)
                    &&& final(self).buffered() == old(self).buffered()
                    &&& final(self).counted() == old(self).counted()
                },
                EntryOutcome::Rows(rows) => {
                    let all = old(self).buffered() + rows;
                    &&& final(self).counted() == saturated(old(self).counted() + rows.len())
                    &&& if all.len() > LOG_CHUNK_SIZE {
                        &&& step matches Ok(ScanStep::Flush(chunk)) && chunk@ == all
                        &&& final(self).buffered() == Seq::<Row>::empty()
                    } else {
                        &&& step matches Ok(ScanStep::Continue)
                        &&& final(self).buffered() == all
                    }
                },
            },
    {
        let (block, tx_index) = match decode_key(key) {
            Ok(position) => position,
            Err(e) => {
                return Err(JobError::MalformedKey(e));
            },
        };
        if block > self.to_block {
            return Ok(ScanStep::Stop);
        }
        let kept: Vec<KvLog> = if value.len() == 0 {
            Vec::new()
        } else {
            match decode_logs(value) {
                Ok(logs) => filter_logs(logs, &self.filter),
                Err(e) => {
                    return Err(JobError::PayloadDecode(e));
                },
            }
        };
        let ghost rows = positioned(block, tx_index, logs_view(kept@));
        proof {
            if value@.len() == 0 {
                assert(rows =~= Seq::<Row>::empty());
            }
        }
        let ghost before = self.buffered();
        let ghost counted = self.log_count;
        for log in it: kept.into_iter()
            invariant
                it.seq() == kept@,
                rows_view(self.buffer@) == before + rows.take(it.index() as int),
                rows == positioned(block, tx_index, logs_view(kept@)),
                self.log_count == saturated(counted + it.index()),
                self.from_block == old(self).from_block,
                self.to_block == old(self).to_block,
                self.filter == old(self).filter,
        {
            let ghost i = it.index() as int;
            let ghost held = rows_view(self.buffer@);
            assert(log == kept@[i]);
            self.buffer.push((block, tx_index, log));
            if self.log_count < u64::MAX {
                self.log_count = self.log_count + 1;
            }
            proof {
                assert(rows[i] == row_view((block, tx_index, log)));
                assert(rows.take(i + 1) =~= rows.take(i).push(rows[i]));
                assert(rows_view(self.buffer@) =~= held.push(rows[i]));
                assert(rows_view(self.buffer@) =~= before + rows.take(i + 1));
            }
        }
        assert(rows.take(rows.len() as int) =~= rows);
        if self.buffer.len() > LOG_CHUNK_SIZE {
            let mut txs: Vec<(u64, u32, KvLog)> = Vec::with_capacity(LOG_CHUNK_SIZE);
            std::mem::swap(&mut self.buffer, &mut txs);
            let chunk = LogChunk { txs };
            assert(self.buffered() =~= Seq::<Row>::empty());
            Ok(ScanStep::Flush(chunk))
        } else {
            Ok(ScanStep::Continue)
        }
    }

    /// Ends the scan: the rows that still wait are handed out as the last
    /// chunk, if there are any.
    pub fn finish(self) -> (last: Option<LogChunk>)
        ensures
            self.buffered().len() == 0 ==> last is None,
            self.buffered().len() > 0 ==> (last matches Some(chunk) && chunk@ == self.buffered()),
    {
        if self.buffer.len() == 0 {
            None
        } else {
            Some(LogChunk { txs: self.buffer })
        }
    }
}

/// The keys and payloads of a list of entries, as byte strings.
pub open spec fn store_view(store: Seq<(Vec<u8>, Vec<u8>)>) -> Seq<(Seq<u8>, Seq<u8>)> {
    Seq::new(store.len(), |i: int| (store[i].0@, store[i].1@))
}

/// The number of leading entries whose key comes before `start`: where a
/// cursor placed at `start` begins.
pub open spec fn seek(store: Seq<(Seq<u8>, Seq<u8>)>, start: Seq<u8>) -> nat
    decreases store.len(),
{
    if store.len() == 0 || !bytes_lt(store[0].0, start) {
        0
    } else {
        1 + seek(store.drop_first(), start)
    }
}

/// The entries that a cursor placed at `start` delivers.
pub open spec fn delivered(store: Seq<(Seq<u8>, Seq<u8>)>, start: Seq<u8>) -> Seq<
    (Seq<u8>, Seq<u8>),
> {
    store.skip(seek(store, start) as int)
}

/// The chunks of a job over a store, in the order in which the writer
/// receives them, or the error that ends the job.
pub open spec fn job_chunks(
    store: Seq<(Seq<u8>, Seq<u8>)>,
    from_block: u64,
    to_block: u64,
    filter: Option<Seq<u8>>,
) -> Result<Seq<Seq<Row>>, JobError> {
    scan_from(empty_batch(), delivered(store, key_bytes(from_block, 0)), to_block, filter)
}

/// Each row group holds the columns of the chunk at its place.
pub open spec fn groups_hold(groups: Seq<ColumnBatch>, chunks: Seq<Seq<Row>>) -> bool {
    &&& groups.len() == chunks.len()
    &&& forall|i: int|
        0 <= i < groups.len() ==> (#[trigger] groups[i]).wf() && groups[i]@ == rows_cells(chunks[i])
}

/// What a finished job leaves: the row groups of its output file, in
/// order, and the number of rows in them.
#[derive(Debug)]
pub struct JobOutput {
    /// The job's name, under which its output is filed.
    pub job_id: String,
    /// One row group per chunk.
    pub row_groups: Vec<ColumnBatch>,
    /// Number of rows, stopping at the largest number that fits.
    pub log_count: u64,
}

/// Runs jobs against one store, filing their output in one place.
pub struct SearchEngine {
    db_path: PathBuf,
    result_storage: Arc<ResultStorage>,
}

impl SearchEngine {
    /// The place of the store, as given at construction.
    pub closed spec fn stored_db_path(&self) -> PathBuf {
        self.db_path
    }

    /// The storage for results, as given at construction.
    pub closed spec fn stored_result_storage(&self) -> Arc<ResultStorage> {
        self.result_storage
    }

    /// An engine that reads the store at `db_path` and files results in
    /// `result_storage`.
    pub fn new(db_path: PathBuf, result_storage: Arc<ResultStorage>) -> (engine: Self)
        ensures
            engine.stored_db_path() == db_path,
            engine.stored_result_storage() == result_storage,
    {
        SearchEngine { db_path, result_storage }
    }

    /// The place of the store.
    pub fn db_path(&self) -> (path: &PathBuf)
        ensures
            *path == self.stored_db_path(),
    {
        &self.db_path
    }

    /// The storage for results.
    pub fn result_storage(&self) -> (storage: &Arc<ResultStorage>)
        ensures
            *storage == self.stored_result_storage(),
    {
        &self.result_storage
    }

    /// Runs a job over a store held in memory, given as its entries in key
    /// order. The scan begins at the first entry whose key does not come
    /// before the first position of `from_block`, ends before the first
    /// entry after `to_block`, and fails on the first entry that cannot be
    /// read. Each chunk that the scan hands on becomes one row group.
    pub fn execute_job(
        &self,
        job_id: String,
        from_block: u64,
        to_block: u64,
        contract_address: Option<Address>,
        store: &Vec<(Vec<u8>, Vec<u8>)>,
    ) -> (outcome: Result<JobOutput, JobError>)
        ensures
            match job_chunks(store_view(store@), from_block, to_block, filter_view(contract_address)) {
                Err(e) => outcome matches Err(err) && err == e,
                Ok(chunks) => {
                    &&& outcome matches Ok(output)
                    &&& output.job_id == job_id
                    &&& groups_hold(output.row_groups@, chunks)
                    &&& output.log_count == saturated(chunks.flatten().len() as int)
                },
            },
    {
        let ghost all = store_view(store@);
        let ghost wanted = filter_view(contract_address);
        let mut scan = JobScan::new(from_block, to_block, contract_address);
        let start = scan.start_key();
        let mut i: usize = 0;
        assert(all.skip(0) =~= all);
        while i < store.len() && key_before(store[i].0.as_slice(), start.as_slice())
            invariant
                all == store_view(store@),
                start@ == key_bytes(from_block, 0),
                i <= store@.len(),
                seek(all, start@) == i + seek(all.skip(i as int), start@),
            decreases store@.len() - i,
        {
            assert(all.skip(i as int)[0] == all[i as int]);
            assert(all.skip(i as int).drop_first() =~= all.skip(i + 1));
            i = i + 1;
        }
        proof {
            if i < store@.len() {
                assert(all.skip(i as int)[0] == all[i as int]);
            }
            assert(seek(all, start@) == i);
        }
        let ghost entries = delivered(all, start@);
        let ghost first = i;
        let ghost mut batch = empty_batch();
        let mut row_groups: Vec<ColumnBatch> = Vec::new();
        proof {
            assert(entries.skip(0) =~= entries);
            assert(batch.sent.flatten() =~= Seq::<Row>::empty());
        }
        while i < store.len()
            invariant
                all == store_view(store@),
                entries == all.skip(first as int),
                entries == delivered(all, key_bytes(from_block, 0)),
                first <= i <= store@.len(),
                wanted == filter_view(contract_address),
                scan.last_block() == to_block,
                scan.wanted() == wanted,
                scan.buffered() == batch.open,
                scan.counted() == saturated((batch.sent.flatten().len() + batch.open.len()) as int),
                groups_hold(row_groups@, batch.sent),
                scan_end(empty_batch(), entries, to_block, wanted) == scan_end(
                    batch,
                    entries.skip(i - first),
                    to_block,
                    wanted,
                ),
            ensures
                scan_end(empty_batch(), entries, to_block, wanted) == Ok::<Batch, JobError>(batch),
            decreases store@.len() - i,
        {
            let ghost rest = entries.skip(i - first);
            proof {
                assert(rest[0] == all[i as int]);
                assert(rest.drop_first() =~= entries.skip(i + 1 - first));
            }
            let ghost sent = batch.sent;
            match scan.on_entry(store[i].0.as_slice(), store[i].1.as_slice()) {
                Err(e) => {
                    return Err(e);
                },
                Ok(ScanStep::Stop) => {
                    break ;
                },
                Ok(ScanStep::Continue) => {
                    proof {
                        let rows = entry_outcome(rest[0].0, rest[0].1, to_block, wanted)->Rows_0;
                        batch = batch_add(batch, rows);
                    }
                },
                Ok(ScanStep::Flush(chunk)) => {
                    proof {
                        let rows = entry_outcome(rest[0].0, rest[0].1, to_block, wanted)->Rows_0;
                        sent.lemma_flatten_push(batch.open + rows);
                        batch = batch_add(batch, rows);
                    }
                    match writer_action(Some(Some(chunk))) {
                        WriterAction::WriteRowGroup(columns) => {
                            row_groups.push(columns);
                        },
                        WriterAction::Close => {},
                    }
                },
            }
            i = i + 1;
        }
        let log_count = scan.log_count();
        proof {
            batch.sent.lemma_flatten_push(batch.open);
        }
        match scan.finish() {
            Some(chunk) => {
                match writer_action(Some(Some(chunk))) {
                    WriterAction::WriteRowGroup(columns) => {
                        row_groups.push(columns);
                    },
                    WriterAction::Close => {},
                }
            },
            None => {
                assert(batch.open =~= Seq::<Row>::empty());
            },
        }
        Ok(JobOutput { job_id, row_groups, log_count })
    }
}

} // verus!
