use erigon_db_reader::storage::build_columns;
use erigon_db_reader::storage::save_binary;
use erigon_db_reader::storage::save_topic;
use erigon_db_reader::storage::topic_at;
use erigon_db_reader::storage::writer_action;
use erigon_db_reader::storage::ColumnBatch;
use erigon_db_reader::storage::OptionalColumn;
use erigon_db_reader::storage::ResultStorage;
use erigon_db_reader::storage::WriterAction;
use erigon_db_reader::storage::ABSENT;
use erigon_db_reader::storage::PRESENT;
use erigon_db_reader::storage::WRITER_QUEUE_CAPACITY;
use erigon_db_reader::types::KvLog;
use erigon_db_reader::types::LogChunk;
use std::path::PathBuf;

fn sample_chunk() -> LogChunk {
    LogChunk {
        txs: vec![
            (101, 3, KvLog { address: [0xaa; 20], topics: vec![[1; 32], [2; 32]], data: None }),
            (104, 0, KvLog { address: [0xbb; 20], topics: vec![], data: Some(vec![7, 8, 9]) }),
            (104, 1, KvLog { address: [0xcc; 20], topics: vec![[3; 32], [4; 32], [5; 32], [6; 32]], data: Some(vec![]) }),
        ],
    }
}

#[test]
fn result_storage_keeps_its_path() {
    let storage = ResultStorage::new(PathBuf::from("/tmp/results"));
    assert_eq!(storage.result_path(), &PathBuf::from("/tmp/results"));
}

#[test]
fn queue_capacity_and_markers() {
    assert_eq!(WRITER_QUEUE_CAPACITY, 8);
    assert_eq!(PRESENT, 1);
    assert_eq!(ABSENT, 0);
}

#[test]
fn save_topic_appends_value_and_marker() {
    let mut col: Vec<Vec<u8>> = vec![vec![9]];
    let mut def: Vec<i16> = vec![1];
    let topic = [0x5a; 32];
    save_topic(&mut col, &mut def, Some(&topic));
    save_topic(&mut col, &mut def, None);
    assert_eq!(col, vec![vec![9], vec![0x5a; 32], vec![]]);
    assert_eq!(def, vec![1, 1, 0]);
}

#[test]
fn save_binary_treats_empty_data_as_missing() {
    let mut col: Vec<Vec<u8>> = Vec::new();
    let mut def: Vec<i16> = Vec::new();
    save_binary(&mut col, &mut def, Some(&vec![1, 2]));
    save_binary(&mut col, &mut def, Some(&vec![]));
    save_binary(&mut col, &mut def, None);
    assert_eq!(col, vec![vec![1, 2], vec![], vec![]]);
    assert_eq!(def, vec![1, 0, 0]);
}

#[test]
fn topic_at_gives_the_topic_or_none() {
    let log = KvLog { address: [0; 20], topics: vec![[1; 32], [2; 32]], data: None };
    assert_eq!(topic_at(&log, 0), Some(&[1; 32]));
    assert_eq!(topic_at(&log, 1), Some(&[2; 32]));
    assert_eq!(topic_at(&log, 2), None);
    assert_eq!(topic_at(&log, 3), None);
}

#[test]
fn build_columns_lays_out_nine_columns() {
    let batch = build_columns(&sample_chunk());
    assert!(batch.is_wf());
    assert_eq!(batch.row_count(), 3);
    assert_eq!(batch.block_number, vec![101i64, 104, 104]);
    assert_eq!(batch.tx_index, vec![3i32, 0, 1]);
    assert_eq!(batch.contract, vec![vec![0xaa; 20], vec![0xbb; 20], vec![0xcc; 20]]);
    assert_eq!(batch.topic_count, vec![2i32, 0, 4]);
    assert_eq!(batch.topic0.values, vec![vec![1; 32], vec![], vec![3; 32]]);
    assert_eq!(batch.topic0.present, vec![1i16, 0, 1]);
    assert_eq!(batch.topic1.values, vec![vec![2; 32], vec![], vec![4; 32]]);
    assert_eq!(batch.topic1.present, vec![1i16, 0, 1]);
    assert_eq!(batch.topic2.values, vec![vec![], vec![], vec![5; 32]]);
    assert_eq!(batch.topic2.present, vec![0i16, 0, 1]);
    assert_eq!(batch.topic3.values, vec![vec![], vec![], vec![6; 32]]);
    assert_eq!(batch.topic3.present, vec![0i16, 0, 1]);
    assert_eq!(batch.data.values, vec![vec![], vec![7, 8, 9], vec![]]);
    assert_eq!(batch.data.present, vec![0i16, 1, 0]);
}

#[test]
fn build_columns_of_an_empty_chunk() {
    let batch = build_columns(&LogChunk { txs: vec![] });
    assert!(batch.is_wf());
    assert_eq!(batch.row_count(), 0);
    assert!(batch.row(0).is_none());
}

#[test]
fn build_columns_keeps_the_bits_of_large_numbers() {
    let chunk = LogChunk {
        txs: vec![(u64::MAX, u32::MAX, KvLog { address: [0; 20], topics: vec![], data: None }), (1u64 << 63, 1u32 << 31, KvLog { address: [0; 20], topics: vec![], data: None })],
    };
    let batch = build_columns(&chunk);
    assert_eq!(batch.block_number, vec![-1i64, i64::MIN]);
    assert_eq!(batch.tx_index, vec![-1i32, i32::MIN]);
    let (block, tx, _) = batch.row(0).unwrap();
    assert_eq!((block, tx), (u64::MAX, u32::MAX));
    let (block, tx, _) = batch.row(1).unwrap();
    assert_eq!((block, tx), (1u64 << 63, 1u32 << 31));
}

#[test]
fn rows_read_back_from_columns() {
    let chunk = sample_chunk();
    let batch = build_columns(&chunk);
    for i in 0..2 {
        let (block, tx, log) = batch.row(i).unwrap();
        assert_eq!(block, chunk.txs[i].0);
        assert_eq!(tx, chunk.txs[i].1);
        assert_eq!(log.address, chunk.txs[i].2.address);
        assert_eq!(log.topics, chunk.txs[i].2.topics);
        assert_eq!(log.data, chunk.txs[i].2.data);
    }
    // empty data is stored like missing data
    let (block, tx, log) = batch.row(2).unwrap();
    assert_eq!((block, tx), (104, 1));
    assert_eq!(log.address, [0xcc; 20]);
    assert_eq!(log.topics, chunk.txs[2].2.topics);
    assert_eq!(log.data, None);
    assert!(batch.row(3).is_none());
}

fn one_row_batch() -> ColumnBatch {
    build_columns(&LogChunk {
        txs: vec![(5, 6, KvLog { address: [1; 20], topics: vec![[2; 32]], data: Some(vec![3]) })],
    })
}

#[test]
fn row_rejects_cells_that_are_no_output_row() {
    assert!(one_row_batch().row(0).is_some());

    let mut batch = one_row_batch();
    batch.contract[0] = vec![1; 19];
    assert!(batch.row(0).is_none());

    let mut batch = one_row_batch();
    batch.topic_count[0] = 5;
    assert!(batch.row(0).is_none());

    let mut batch = one_row_batch();
    batch.topic_count[0] = -1;
    assert!(batch.row(0).is_none());

    let mut batch = one_row_batch();
    batch.topic_count[0] = 2;
    assert!(batch.row(0).is_none());

    let mut batch = one_row_batch();
    batch.topic0.present[0] = 0;
    assert!(batch.row(0).is_none());

    let mut batch = one_row_batch();
    batch.topic0.values[0] = vec![2; 31];
    assert!(batch.row(0).is_none());

    let mut batch = one_row_batch();
    batch.topic1.present[0] = 1;
    assert!(batch.row(0).is_none());

    let mut batch = one_row_batch();
    batch.topic3.values[0] = vec![0];
    assert!(batch.row(0).is_none());

    let mut batch = one_row_batch();
    batch.data.present[0] = 2;
    assert!(batch.row(0).is_none());

    let mut batch = one_row_batch();
    batch.data.values[0] = vec![];
    assert!(batch.row(0).is_none());

    let mut batch = one_row_batch();
    batch.data.present[0] = 0;
    assert!(batch.row(0).is_none());
}

#[test]
fn row_rejects_columns_of_different_lengths() {
    let mut batch = one_row_batch();
    batch.tx_index.push(1);
    assert!(!batch.is_wf());
    assert!(batch.row(0).is_none());

    let mut batch = one_row_batch();
    batch.data.present.clear();
    assert!(!batch.is_wf());
    assert!(batch.row(0).is_none());
}

#[test]
fn optional_column_starts_empty() {
    let column = OptionalColumn::new();
    assert!(column.values.is_empty());
    assert!(column.present.is_empty());
}

#[test]
fn writer_action_writes_chunks_and_closes_on_the_end_marker() {
    match writer_action(Some(Some(sample_chunk()))) {
        WriterAction::WriteRowGroup(batch) => {
            assert_eq!(batch.row_count(), 3);
            assert_eq!(batch.block_number, vec![101i64, 104, 104]);
        }
        WriterAction::Close => panic!("a chunk must be written"),
    }
    assert!(matches!(writer_action(Some(None)), WriterAction::Close));
    assert!(matches!(writer_action(None), WriterAction::Close));
}

#[test]
fn packed_values_are_the_values_that_are_there() {
    let batch = build_columns(&sample_chunk());
    assert_eq!(batch.topic0.packed_values(), Some(vec![vec![1; 32], vec![3; 32]]));
    assert_eq!(batch.topic2.packed_values(), Some(vec![vec![5; 32]]));
    assert_eq!(batch.data.packed_values(), Some(vec![vec![7, 8, 9]]));
    assert_eq!(OptionalColumn::new().packed_values(), Some(vec![]));
    let column = OptionalColumn { values: vec![vec![], vec![1], vec![], vec![2]], present: vec![0, 1, 0, 1] };
    assert!(column.is_wf());
    assert_eq!(column.packed_values(), Some(vec![vec![1], vec![2]]));
    let column = OptionalColumn { values: vec![vec![], vec![]], present: vec![0, 0] };
    assert_eq!(column.packed_values(), Some(vec![]));
}

#[test]
fn packed_values_need_one_marker_for_each_value() {
    let column = OptionalColumn { values: vec![vec![1]], present: vec![] };
    assert!(!column.is_wf());
    assert_eq!(column.packed_values(), None);
    let column = OptionalColumn { values: vec![], present: vec![1] };
    assert_eq!(column.packed_values(), None);
}
