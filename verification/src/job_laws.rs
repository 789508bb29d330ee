//! What holds of every job: which rows it gives, in which order, and how
//! they are cut into chunks.

use crate::codec::bytes_lt;
use crate::codec::key_bytes;
use crate::codec::key_fields;
use crate::codec::lemma_before_block_start;
use crate::codec::lemma_lt_transitive;
use crate::codec::lemma_sorted_keys_positions;
use crate::codec::position_lt;
use crate::engine::Batch;
use crate::engine::EntryOutcome;
use crate::engine::JobError;
use crate::engine::LOG_CHUNK_SIZE;
use crate::engine::batch_add;
use crate::engine::batch_close;
use crate::engine::delivered;
use crate::engine::empty_batch;
use crate::engine::entry_outcome;
use crate::engine::job_chunks;
use crate::engine::positioned;
use crate::engine::scan_end;
use crate::engine::scan_from;
use crate::engine::scan_rows;
use crate::engine::seek;
use crate::payload::lemma_payload_records_wf;
use crate::payload::passing;
use crate::payload::payload_records;
use crate::payload::retained;
use crate::engine::groups_hold;
use crate::storage::ColumnBatch;
use crate::storage::lemma_cells_round_trip;
use crate::storage::row_cells;
use crate::storage::rows_cells;
use crate::storage::stored_record;
use crate::types::Row;
use vstd::prelude::*;

verus! {

/// The rows that one entry of the store owes to a job: the records of its
/// payload that pass the filter, if its block lies in the job's range.
pub open spec fn entry_matches(
    entry: (Seq<u8>, Seq<u8>),
    from_block: u64,
    to_block: u64,
    filter: Option<Seq<u8>>,
) -> Seq<Row> {
    match key_fields(entry.0) {
        Some((block, tx_index)) => if from_block <= block <= to_block && entry.1.len() > 0 {
            match payload_records(entry.1) {
                Ok(records) => positioned(block, tx_index, retained(records, filter)),
                Err(_) => Seq::empty(),
            }
        } else {
            Seq::empty()
        },
        None => Seq::empty(),
    }
}

/// The rows that a store owes to a job: those of its entries, in the order
/// of the store.
pub open spec fn matching_rows(
    store: Seq<(Seq<u8>, Seq<u8>)>,
    from_block: u64,
    to_block: u64,
    filter: Option<Seq<u8>>,
) -> Seq<Row>
    decreases store.len(),
{
    if store.len() == 0 {
        Seq::empty()
    } else {
        entry_matches(store[0], from_block, to_block, filter) + matching_rows(
            store.drop_first(),
            from_block,
            to_block,
            filter,
        )
    }
}

/// The keys of the store ascend in the order of its cursor.
pub open spec fn store_sorted(store: Seq<(Seq<u8>, Seq<u8>)>) -> bool {
    forall|i: int, j: int| 0 <= i < j < store.len() ==> bytes_lt(#[trigger] store[i].0, #[trigger] store[j].0)
}

/// The position of a row.
pub open spec fn row_position(row: Row) -> (u64, u32) {
    (row.block, row.tx_index)
}

/// No row stands before a row of a smaller position.
pub open spec fn rows_ascending(rows: Seq<Row>) -> bool {
    forall|i: int, j: int|
        0 <= i < j < rows.len() ==> !position_lt(
            row_position(#[trigger] rows[j]),
            row_position(#[trigger] rows[i]),
        )
}

/// Every chunk holds a row, and every chunk but the last holds more than
/// `LOG_CHUNK_SIZE` rows.
pub open spec fn chunks_shaped(chunks: Seq<Seq<Row>>) -> bool {
    &&& forall|i: int| 0 <= i < chunks.len() ==> (#[trigger] chunks[i]).len() > 0
    &&& forall|i: int| 0 <= i < chunks.len() - 1 ==> (#[trigger] chunks[i]).len() > LOG_CHUNK_SIZE
}

/// An entry whose payload is empty gives no rows, though its key lies in
/// the range of the job.
pub proof fn lemma_empty_payload_no_rows(key: Seq<u8>, to_block: u64, filter: Option<Seq<u8>>)
    requires
        key_fields(key) matches Some(position) && position.0 <= to_block,
    ensures
        entry_outcome(key, Seq::<u8>::empty(), to_block, filter) == EntryOutcome::Rows(
            Seq::<Row>::empty(),
        ),
        forall|batch: Batch|
            batch.open.len() <= LOG_CHUNK_SIZE ==> #[trigger] batch_add(batch, Seq::<Row>::empty())
                == batch,
{
    assert forall|batch: Batch| batch.open.len() <= LOG_CHUNK_SIZE implies #[trigger] batch_add(
        batch,
        Seq::<Row>::empty(),
    ) == batch by {
        assert(batch.open + Seq::<Row>::empty() =~= batch.open);
    }
}

/// A chunk that holds exactly `LOG_CHUNK_SIZE` rows stays open; one row
/// more and it is handed on.
pub proof fn lemma_chunk_boundary(batch: Batch, rows: Seq<Row>)
    ensures
        (batch.open + rows).len() <= LOG_CHUNK_SIZE ==> batch_add(batch, rows) == (Batch {
            sent: batch.sent,
            open: batch.open + rows,
        }),
        (batch.open + rows).len() > LOG_CHUNK_SIZE ==> batch_add(batch, rows) == (Batch {
            sent: batch.sent.push(batch.open + rows),
            open: Seq::<Row>::empty(),
        }),
{
}

/// The batch at the end of a scan holds, one after the other, the rows
/// gathered before and then the rows of the scan; the scan fails exactly
/// where its rows cannot be had.
pub proof fn lemma_scan_end_holds_rows(
    batch: Batch,
    entries: Seq<(Seq<u8>, Seq<u8>)>,
    to_block: u64,
    filter: Option<Seq<u8>>,
)
    ensures
        match scan_rows(entries, to_block, filter) {
            Err(e) => scan_end(batch, entries, to_block, filter) == Err::<Batch, JobError>(e),
            Ok(rows) => scan_end(batch, entries, to_block, filter) matches Ok(end)
                && end.sent.flatten() + end.open == batch.sent.flatten() + batch.open + rows,
        },
    decreases entries.len(),
{
    broadcast use Seq::lemma_flatten_push;

    if entries.len() == 0 {
        assert(batch.sent.flatten() + batch.open =~= batch.sent.flatten() + batch.open
            + Seq::<Row>::empty());
    } else {
        match entry_outcome(entries[0].0, entries[0].1, to_block, filter) {
            EntryOutcome::Stop => {
                assert(batch.sent.flatten() + batch.open =~= batch.sent.flatten() + batch.open
                    + Seq::<Row>::empty());
            },
            EntryOutcome::Fail(e) => {},
            EntryOutcome::Rows(rows) => {
                let next = batch_add(batch, rows);
                lemma_scan_end_holds_rows(next, entries.drop_first(), to_block, filter);
                assert(next.sent.flatten() + next.open =~= batch.sent.flatten() + batch.open + rows);
                if let Ok(rest) = scan_rows(entries.drop_first(), to_block, filter) {
                    assert(next.sent.flatten() + next.open + rest =~= batch.sent.flatten()
                        + batch.open + (rows + rest));
                }
            },
        }
    }
}

/// The chunks of a scan hold, one after the other, the rows gathered
/// before and then the rows of the scan.
pub proof fn lemma_chunks_hold_rows(
    batch: Batch,
    entries: Seq<(Seq<u8>, Seq<u8>)>,
    to_block: u64,
    filter: Option<Seq<u8>>,
)
    ensures
        match scan_rows(entries, to_block, filter) {
            Err(e) => scan_from(batch, entries, to_block, filter) == Err::<Seq<Seq<Row>>, JobError>(e),
            Ok(rows) => scan_from(batch, entries, to_block, filter) matches Ok(chunks)
                && chunks.flatten() == batch.sent.flatten() + batch.open + rows,
        },
{
    broadcast use Seq::lemma_flatten_push;

    lemma_scan_end_holds_rows(batch, entries, to_block, filter);
    if let Ok(end) = scan_end(batch, entries, to_block, filter) {
        assert(batch_close(end).flatten() =~= end.sent.flatten() + end.open);
    }
}

/// Every chunk handed on during a scan holds more than `LOG_CHUNK_SIZE`
/// rows, and at most that many remain at its end.
pub open spec fn batch_shaped(batch: Batch) -> bool {
    &&& batch.open.len() <= LOG_CHUNK_SIZE
    &&& forall|i: int| 0 <= i < batch.sent.len() ==> (#[trigger] batch.sent[i]).len() > LOG_CHUNK_SIZE
}

/// A scan keeps the shape of its batch: the chunks handed on during the
/// scan hold more than `LOG_CHUNK_SIZE` rows each, and the rows that
/// remain at its end are at most that many. So the chunks of a scan are
/// the full ones and then, if rows remain, one last chunk of at least one
/// and at most `LOG_CHUNK_SIZE` rows.
pub proof fn lemma_chunks_shaped(
    batch: Batch,
    entries: Seq<(Seq<u8>, Seq<u8>)>,
    to_block: u64,
    filter: Option<Seq<u8>>,
)
    requires
        batch_shaped(batch),
    ensures
        scan_end(batch, entries, to_block, filter) matches Ok(end) ==> {
            &&& batch_shaped(end)
            &&& scan_from(batch, entries, to_block, filter) == Ok::<Seq<Seq<Row>>, JobError>(
                if end.open.len() > 0 {
                    end.sent.push(end.open)
                } else {
                    end.sent
                },
            )
            &&& chunks_shaped(batch_close(end))
        },
    decreases entries.len(),
{
    if entries.len() > 0 {
        match entry_outcome(entries[0].0, entries[0].1, to_block, filter) {
            EntryOutcome::Rows(rows) => {
                lemma_chunks_shaped(batch_add(batch, rows), entries.drop_first(), to_block, filter);
            },
            _ => {},
        }
    }
}

/// A cursor begins within the store, and an entry before the start key is
/// not delivered.
proof fn lemma_seek_bound(store: Seq<(Seq<u8>, Seq<u8>)>, start: Seq<u8>)
    ensures
        seek(store, start) <= store.len(),
        store.len() > 0 && bytes_lt(store[0].0, start) ==> delivered(store, start) == delivered(
            store.drop_first(),
            start,
        ),
    decreases store.len(),
{
    if store.len() > 0 && bytes_lt(store[0].0, start) {
        let rest = store.drop_first();
        lemma_seek_bound(rest, start);
        assert(store.skip(seek(store, start) as int) =~= rest.skip(seek(rest, start) as int));
    }
}

/// The entries before the start key owe no rows to the job.
proof fn lemma_skipped_no_match(
    store: Seq<(Seq<u8>, Seq<u8>)>,
    from_block: u64,
    to_block: u64,
    filter: Option<Seq<u8>>,
)
    ensures
        matching_rows(store, from_block, to_block, filter) == matching_rows(
            delivered(store, key_bytes(from_block, 0)),
            from_block,
            to_block,
            filter,
        ),
    decreases store.len(),
{
    let start = key_bytes(from_block, 0);
    if store.len() == 0 || !bytes_lt(store[0].0, start) {
        assert(store.skip(0) =~= store);
    } else {
        let rest = store.drop_first();
        lemma_skipped_no_match(rest, from_block, to_block, filter);
        lemma_seek_bound(store, start);
        if key_fields(store[0].0) is Some {
            lemma_before_block_start(store[0].0, from_block);
        }
        assert(entry_matches(store[0], from_block, to_block, filter) =~= Seq::<Row>::empty());
        assert(Seq::<Row>::empty() + matching_rows(rest, from_block, to_block, filter)
            =~= matching_rows(rest, from_block, to_block, filter));
    }
}

/// Entries whose blocks all lie after the last block owe no rows to the
/// job.
proof fn lemma_after_stop_no_match(
    entries: Seq<(Seq<u8>, Seq<u8>)>,
    from_block: u64,
    to_block: u64,
    filter: Option<Seq<u8>>,
)
    requires
        forall|j: int|
            0 <= j < entries.len() ==> (key_fields(#[trigger] entries[j].0) matches Some(position)
                ==> position.0 > to_block),
    ensures
        matching_rows(entries, from_block, to_block, filter) == Seq::<Row>::empty(),
    decreases entries.len(),
{
    if entries.len() > 0 {
        let rest = entries.drop_first();
        assert forall|j: int| 0 <= j < rest.len() implies (key_fields(
            #[trigger] rest[j].0,
        ) matches Some(position) ==> position.0 > to_block) by {
            assert(rest[j] == entries[j + 1]);
        }
        lemma_after_stop_no_match(rest, from_block, to_block, filter);
        assert(key_fields(entries[0].0) matches Some(position) ==> position.0 > to_block);
        assert(entry_matches(entries[0], from_block, to_block, filter) =~= Seq::<Row>::empty());
        assert(Seq::<Row>::empty() + Seq::<Row>::empty() =~= Seq::<Row>::empty());
    }
}

/// The rest of a sorted store is sorted, and its keys come after the
/// first key.
proof fn lemma_sorted_rest(store: Seq<(Seq<u8>, Seq<u8>)>)
    requires
        store_sorted(store),
        store.len() > 0,
    ensures
        store_sorted(store.drop_first()),
        forall|j: int| 0 <= j < store.len() - 1 ==> bytes_lt(store[0].0, #[trigger] store.drop_first()[j].0),
{
    let rest = store.drop_first();
    assert forall|i: int, j: int| 0 <= i < j < rest.len() implies bytes_lt(
        #[trigger] rest[i].0,
        #[trigger] rest[j].0,
    ) by {
        assert(rest[i] == store[i + 1] && rest[j] == store[j + 1]);
    }
    assert forall|j: int| 0 <= j < store.len() - 1 implies bytes_lt(store[0].0, #[trigger] rest[j].0) by {
        assert(rest[j] == store[j + 1]);
    }
}

/// A scan that ends without an error, over sorted entries from the start
/// key on, gives just the rows that the entries owe to the job.
proof fn lemma_scan_gives_matching(
    entries: Seq<(Seq<u8>, Seq<u8>)>,
    from_block: u64,
    to_block: u64,
    filter: Option<Seq<u8>>,
)
    requires
        store_sorted(entries),
        forall|j: int| 0 <= j < entries.len() ==> !bytes_lt(#[trigger] entries[j].0, key_bytes(from_block, 0)),
        scan_rows(entries, to_block, filter) is Ok,
    ensures
        scan_rows(entries, to_block, filter) == Ok::<Seq<Row>, JobError>(
            matching_rows(entries, from_block, to_block, filter),
        ),
    decreases entries.len(),
{
    if entries.len() > 0 {
        let rest = entries.drop_first();
        let key = entries[0].0;
        lemma_sorted_rest(entries);
        assert(!bytes_lt(entries[0].0, key_bytes(from_block, 0)));
        let position = key_fields(key).unwrap();
        lemma_before_block_start(key, from_block);
        if position.0 > to_block {
            assert forall|j: int| 0 <= j < entries.len() implies (key_fields(
                #[trigger] entries[j].0,
            ) matches Some(other) ==> other.0 > to_block) by {
                if j > 0 && key_fields(entries[j].0) is Some {
                    assert(rest[j - 1] == entries[j]);
                    lemma_sorted_keys_positions(key, entries[j].0);
                }
            }
            lemma_after_stop_no_match(entries, from_block, to_block, filter);
        } else {
            assert forall|j: int| 0 <= j < rest.len() implies !bytes_lt(
                #[trigger] rest[j].0,
                key_bytes(from_block, 0),
            ) by {
                assert(rest[j] == entries[j + 1]);
            }
            lemma_scan_gives_matching(rest, from_block, to_block, filter);
            if entries[0].1.len() == 0 {
                assert(Seq::<Row>::empty() + matching_rows(rest, from_block, to_block, filter)
                    =~= matching_rows(rest, from_block, to_block, filter));
            }
        }
    }
}

/// The rows that sorted entries owe to a job ascend, and none lies before
/// a position that no key lies before.
proof fn lemma_matching_ascending(
    entries: Seq<(Seq<u8>, Seq<u8>)>,
    from_block: u64,
    to_block: u64,
    filter: Option<Seq<u8>>,
    floor: (u64, u32),
)
    requires
        store_sorted(entries),
        forall|j: int|
            0 <= j < entries.len() ==> (key_fields(#[trigger] entries[j].0) matches Some(position)
                ==> !position_lt(position, floor)),
    ensures
        rows_ascending(matching_rows(entries, from_block, to_block, filter)),
        forall|i: int|
            0 <= i < matching_rows(entries, from_block, to_block, filter).len() ==> !position_lt(
                row_position(#[trigger] matching_rows(entries, from_block, to_block, filter)[i]),
                floor,
            ),
    decreases entries.len(),
{
    if entries.len() > 0 {
        let rest = entries.drop_first();
        let head = entry_matches(entries[0], from_block, to_block, filter);
        let tail = matching_rows(rest, from_block, to_block, filter);
        let all = matching_rows(entries, from_block, to_block, filter);
        lemma_sorted_rest(entries);
        assert(key_fields(entries[0].0) matches Some(position) ==> !position_lt(position, floor));
        let next_floor = match key_fields(entries[0].0) {
            Some(position) => position,
            None => floor,
        };
        assert forall|j: int| 0 <= j < rest.len() implies (key_fields(
            #[trigger] rest[j].0,
        ) matches Some(position) ==> !position_lt(position, next_floor)) by {
            assert(rest[j] == entries[j + 1]);
            if key_fields(rest[j].0) is Some {
                if key_fields(entries[0].0) is Some {
                    lemma_sorted_keys_positions(entries[0].0, rest[j].0);
                }
            }
        }
        lemma_matching_ascending(rest, from_block, to_block, filter, next_floor);
        assert forall|i: int| 0 <= i < head.len() implies row_position(#[trigger] head[i])
            == next_floor by {}
        assert forall|i: int| 0 <= i < all.len() implies !position_lt(
            row_position(#[trigger] all[i]),
            floor,
        ) && (i >= head.len() ==> !position_lt(row_position(all[i]), next_floor)) by {
            if i < head.len() {
                assert(all[i] == head[i]);
            } else {
                assert(all[i] == tail[i - head.len()]);
            }
        }
        assert forall|i: int, j: int| 0 <= i < j < all.len() implies !position_lt(
            row_position(#[trigger] all[j]),
            row_position(#[trigger] all[i]),
        ) by {
            if i < head.len() {
                assert(all[i] == head[i]);
                if j < head.len() {
                    assert(all[j] == head[j]);
                } else {
                    assert(all[j] == tail[j - head.len()]);
                }
            } else {
                assert(all[i] == tail[i - head.len()]);
                assert(all[j] == tail[j - head.len()]);
            }
        }
    }
}

/// What a cursor delivers from a sorted store is sorted, and none of its
/// keys comes before the start key.
proof fn lemma_delivered_sorted(store: Seq<(Seq<u8>, Seq<u8>)>, start: Seq<u8>)
    requires
        store_sorted(store),
    ensures
        store_sorted(delivered(store, start)),
        forall|j: int|
            0 <= j < delivered(store, start).len() ==> !bytes_lt(
                #[trigger] delivered(store, start)[j].0,
                start,
            ),
    decreases store.len(),
{
    let out = delivered(store, start);
    if store.len() == 0 {
    } else if !bytes_lt(store[0].0, start) {
        assert(out =~= store);
        assert forall|j: int| 0 <= j < out.len() implies !bytes_lt(#[trigger] out[j].0, start) by {
            if j > 0 && bytes_lt(out[j].0, start) {
                assert(bytes_lt(store[0].0, store[j].0));
                lemma_lt_transitive(store[0].0, store[j].0, start);
            }
        }
    } else {
        let rest = store.drop_first();
        lemma_sorted_rest(store);
        lemma_delivered_sorted(rest, start);
        lemma_seek_bound(store, start);
    }
}

/// Every row that a store owes to a job holds a well-formed record: an
/// address of twenty bytes and at most four topics of thirty-two bytes.
pub proof fn lemma_matching_rows_wf(
    store: Seq<(Seq<u8>, Seq<u8>)>,
    from_block: u64,
    to_block: u64,
    filter: Option<Seq<u8>>,
)
    ensures
        forall|i: int|
            0 <= i < matching_rows(store, from_block, to_block, filter).len() ==> (
            #[trigger] matching_rows(store, from_block, to_block, filter)[i]).log.wf(),
    decreases store.len(),
{
    let all = matching_rows(store, from_block, to_block, filter);
    if store.len() > 0 {
        let head = entry_matches(store[0], from_block, to_block, filter);
        let tail = matching_rows(store.drop_first(), from_block, to_block, filter);
        lemma_matching_rows_wf(store.drop_first(), from_block, to_block, filter);
        lemma_payload_records_wf(store[0].1);
        assert forall|i: int| 0 <= i < all.len() implies (#[trigger] all[i]).log.wf() by {
            if i < head.len() {
                let records = payload_records(store[0].1).unwrap();
                let kept = retained(records, filter);
                assert(all[i] == head[i]);
                assert(head[i].log == kept[i]);
                assert(kept.contains(kept[i]));
                records.lemma_filter_contains_rev(passing(filter), kept[i]);
                let k = choose|k: int| 0 <= k < records.len() && records[k] == kept[i];
                assert(records[k].wf());
            } else {
                assert(all[i] == tail[i - head.len()]);
            }
        }
    }
}

/// The rows of a job over a store whose keys ascend. Where the job ends
/// without an error, its chunks hold, one after the other, just the rows
/// that the store owes to it: the records that pass the filter, of the
/// entries whose block lies between `from_block` and `to_block`. So there
/// are as many rows as there are such records, they stand in ascending
/// order of (block, transaction index), and rows of one position keep the
/// order of their payload. The chunks handed on during the scan hold more
/// than `LOG_CHUNK_SIZE` rows each; the rows that remain, at most that
/// many, make the last chunk; a job without rows has no chunk.
pub proof fn lemma_job_rows(
    store: Seq<(Seq<u8>, Seq<u8>)>,
    from_block: u64,
    to_block: u64,
    filter: Option<Seq<u8>>,
)
    requires
        store_sorted(store),
        job_chunks(store, from_block, to_block, filter) is Ok,
    ensures
        job_chunks(store, from_block, to_block, filter) matches Ok(chunks) && {
            &&& chunks.flatten() == matching_rows(store, from_block, to_block, filter)
            &&& chunks.flatten().len() == matching_rows(store, from_block, to_block, filter).len()
            &&& rows_ascending(chunks.flatten())
            &&& chunks_shaped(chunks)
            &&& matching_rows(store, from_block, to_block, filter).len() == 0 ==> chunks.len() == 0
        },
        scan_end(
            empty_batch(),
            delivered(store, key_bytes(from_block, 0)),
            to_block,
            filter,
        ) matches Ok(end) && batch_shaped(end),
{
    let start = key_bytes(from_block, 0);
    let entries = delivered(store, start);
    let chunks = job_chunks(store, from_block, to_block, filter).unwrap();
    lemma_chunks_hold_rows(empty_batch(), entries, to_block, filter);
    lemma_chunks_shaped(empty_batch(), entries, to_block, filter);
    let rows = scan_rows(entries, to_block, filter).unwrap();
    assert(empty_batch().sent.flatten() =~= Seq::<Row>::empty());
    assert(chunks.flatten() =~= rows);
    lemma_delivered_sorted(store, start);
    lemma_scan_gives_matching(entries, from_block, to_block, filter);
    lemma_skipped_no_match(store, from_block, to_block, filter);
    lemma_matching_ascending(store, from_block, to_block, filter, (0u64, 0u32));
    if chunks.len() > 0 {
        assert(chunks[0].len() > 0);
        assert(chunks.flatten() == chunks.first() + chunks.drop_first().flatten());
    }
}

/// Reading a row back from the row groups of a job gives the row that
/// went in: the position, the address, every topic and the data, with
/// empty data read as no data.
pub proof fn lemma_groups_round_trip(
    groups: Seq<ColumnBatch>,
    chunks: Seq<Seq<Row>>,
    group: int,
    i: int,
)
    requires
        groups_hold(groups, chunks),
        0 <= group < chunks.len(),
        0 <= i < chunks[group].len(),
        chunks[group][i].log.wf(),
    ensures
        groups[group].cells(i).wf(),
        groups[group].cells(i).row() == (Row {
            block: chunks[group][i].block,
            tx_index: chunks[group][i].tx_index,
            log: stored_record(chunks[group][i].log),
        }),
        chunks[group][i].log.data != Some(Seq::<u8>::empty()) ==> groups[group].cells(i).row()
            == chunks[group][i],
{
    let batch = groups[group];
    let rows = chunks[group];
    assert(batch@ == rows_cells(rows));
    assert(batch@.len() == rows.len());
    assert(batch@[i] == batch.cells(i));
    assert(rows_cells(rows)[i] == row_cells(rows[i]));
    lemma_cells_round_trip(rows[i]);
}

} // verus!
