use erigon_db_reader::codec::encode_key;
use erigon_db_reader::engine::SearchEngine;
use erigon_db_reader::storage::build_columns;
use erigon_db_reader::storage::ColumnBatch;
use erigon_db_reader::storage::ResultStorage;
use erigon_db_reader::storage::LOGS_MESSAGE_TYPE;
use erigon_db_reader::types::KvLog;
use erigon_db_reader::types::LogChunk;
use parquet::basic::{Compression, Encoding};
use parquet::data_type::{ByteArray, ByteArrayType, Int32Type, Int64Type};
use parquet::file::properties::{WriterProperties, WriterVersion};
use parquet::file::reader::{FileReader, SerializedFileReader};
use parquet::file::writer::SerializedFileWriter;
use parquet::record::Field;
use parquet::schema::parser::parse_message_type;
use serde_cbor::Value;
use std::path::PathBuf;
use std::sync::Arc;

fn byte_arrays(values: &Vec<Vec<u8>>) -> Vec<ByteArray> {
    values.iter().map(|v| ByteArray::from(v.clone())).collect()
}

fn write_file(groups: &[ColumnBatch]) -> Vec<u8> {
    let schema = Arc::new(parse_message_type(LOGS_MESSAGE_TYPE).unwrap());
    let props = WriterProperties::builder()
        .set_writer_version(WriterVersion::PARQUET_2_0)
        .set_encoding(Encoding::PLAIN)
        .set_compression(Compression::SNAPPY)
        .build();
    let mut writer = SerializedFileWriter::new(Vec::<u8>::new(), schema, props.into()).unwrap();
    for batch in groups {
        let mut row_group = writer.next_row_group().unwrap();
        let mut col = row_group.next_column().unwrap().unwrap();
        col.typed::<Int64Type>().write_batch(&batch.block_number, None, None).unwrap();
        col.close().unwrap();
        let mut col = row_group.next_column().unwrap().unwrap();
        col.typed::<Int32Type>().write_batch(&batch.tx_index, None, None).unwrap();
        col.close().unwrap();
        let mut col = row_group.next_column().unwrap().unwrap();
        col.typed::<ByteArrayType>().write_batch(&byte_arrays(&batch.contract), None, None).unwrap();
        col.close().unwrap();
        let mut col = row_group.next_column().unwrap().unwrap();
        col.typed::<Int32Type>().write_batch(&batch.topic_count, None, None).unwrap();
        col.close().unwrap();
        for optional in [&batch.topic0, &batch.topic1, &batch.topic2, &batch.topic3, &batch.data] {
            let mut col = row_group.next_column().unwrap().unwrap();
            let values = optional.packed_values().unwrap();
            let written = col.typed::<ByteArrayType>().write_batch(&byte_arrays(&values), Some(&optional.present), None).unwrap();
            assert_eq!(written, values.len());
            col.close().unwrap();
        }
        assert!(row_group.next_column().unwrap().is_none());
        row_group.close().unwrap();
    }
    writer.into_inner().unwrap()
}

fn bytes_of(field: &Field) -> Option<Vec<u8>> {
    match field {
        Field::Bytes(bytes) => Some(bytes.data().to_vec()),
        Field::Null => None,
        other => panic!("unexpected field {:?}", other),
    }
}

fn read_rows(file: Vec<u8>) -> (Vec<i64>, Vec<(u64, u32, KvLog)>) {
    let reader = SerializedFileReader::new(bytes::Bytes::from(file)).unwrap();
    let group_sizes = reader.metadata().row_groups().iter().map(|g| g.num_rows()).collect();
    let mut rows = Vec::new();
    for row in reader.get_row_iter(None).unwrap() {
        let row = row.unwrap();
        let fields: Vec<(String, Field)> = row.get_column_iter().map(|(n, f)| (n.clone(), f.clone())).collect();
        let names: Vec<&str> = fields.iter().map(|(n, _)| n.as_str()).collect();
        assert_eq!(
            names,
            vec!["block_number", "tx_index", "contract", "topic_count", "topic0", "topic1", "topic2", "topic3", "data"]
        );
        let block = match fields[0].1 {
            Field::Long(v) => v as u64,
            _ => panic!("block_number must be a 64-bit integer"),
        };
        let tx = match fields[1].1 {
            Field::Int(v) => v as u32,
            _ => panic!("tx_index must be a 32-bit integer"),
        };
        let address: [u8; 20] = bytes_of(&fields[2].1).unwrap().try_into().unwrap();
        let count = match fields[3].1 {
            Field::Int(v) => v as usize,
            _ => panic!("topic_count must be a 32-bit integer"),
        };
        let mut topics = Vec::new();
        for k in 0..4 {
            match bytes_of(&fields[4 + k].1) {
                Some(topic) => {
                    assert!(k < count);
                    topics.push(topic.try_into().unwrap());
                }
                None => assert!(k >= count),
            }
        }
        let data = bytes_of(&fields[8].1);
        rows.push((block, tx, KvLog { address, topics, data }));
    }
    (group_sizes, rows)
}

#[test]
fn test_parquet() {
    let chunk = LogChunk {
        txs: vec![
            (1, 100, KvLog { address: [0; 20], topics: vec![[0; 32]], data: None }),
            (2, 200, KvLog { address: [0; 20], topics: vec![], data: None }),
            (3, 300, KvLog { address: [0; 20], topics: vec![[0; 32]], data: None }),
        ],
    };
    let bytes = write_file(&[build_columns(&chunk)]);
    assert_eq!(&bytes[0..4], &[b'P', b'A', b'R', b'1']);
}

#[test]
fn written_file_reads_back_as_the_rows() {
    let chunk = LogChunk {
        txs: vec![
            (101, 3, KvLog { address: [0xaa; 20], topics: vec![[1; 32], [2; 32]], data: None }),
            (104, 0, KvLog { address: [0xbb; 20], topics: vec![], data: Some(vec![7, 8, 9]) }),
            (104, 1, KvLog { address: [0xcc; 20], topics: vec![[3; 32], [4; 32], [5; 32], [6; 32]], data: Some(vec![1]) }),
        ],
    };
    let (groups, rows) = read_rows(write_file(&[build_columns(&chunk)]));
    assert_eq!(groups, vec![3]);
    assert_eq!(rows.len(), 3);
    for (row, tx) in rows.iter().zip(chunk.txs.iter()) {
        assert_eq!((row.0, row.1), (tx.0, tx.1));
        assert_eq!(row.2.address, tx.2.address);
        assert_eq!(row.2.topics, tx.2.topics);
        assert_eq!(row.2.data, tx.2.data);
    }
}

#[test]
fn job_output_becomes_one_row_group_per_chunk() {
    let record = |tag: u8| {
        Value::Array(vec![Value::Bytes(vec![tag; 20]), Value::Array(vec![Value::Bytes(vec![tag; 32])]), Value::Bytes(vec![tag])])
    };
    let many = |tag: u8, n: usize| serde_cbor::to_vec(&Value::Array((0..n).map(|_| record(tag)).collect())).unwrap();
    let store = vec![
        (encode_key(1, 0), many(1, 10_001)),
        (encode_key(2, 0), vec![]),
        (encode_key(3, 5), many(2, 2)),
        (encode_key(9, 0), many(3, 2)),
    ];
    let engine = SearchEngine::new(PathBuf::from("db"), Arc::new(ResultStorage::new(PathBuf::from("out"))));
    let output = engine.execute_job("j".to_string(), 1, 8, None, &store).unwrap();
    let (groups, rows) = read_rows(write_file(&output.row_groups));
    assert_eq!(groups, vec![10_001, 2]);
    assert_eq!(rows.len(), 10_003);
    assert_eq!((rows[0].0, rows[0].1), (1, 0));
    assert_eq!(rows[0].2.address, [1; 20]);
    assert_eq!((rows[10_002].0, rows[10_002].1), (3, 5));
    assert_eq!(rows[10_002].2.topics, vec![[2u8; 32]]);
    assert_eq!(rows[10_002].2.data, Some(vec![2]));
}

#[test]
fn job_without_rows_becomes_a_file_without_row_groups() {
    let engine = SearchEngine::new(PathBuf::from("db"), Arc::new(ResultStorage::new(PathBuf::from("out"))));
    let store = vec![(encode_key(1, 0), vec![])];
    let output = engine.execute_job("j".to_string(), 0, 5, None, &store).unwrap();
    let (groups, rows) = read_rows(write_file(&output.row_groups));
    assert!(groups.is_empty());
    assert!(rows.is_empty());
}
