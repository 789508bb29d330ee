use erigon_db_reader::payload::decode_logs;
use erigon_db_reader::payload::filter_logs;
use erigon_db_reader::payload::record_from_item;
use erigon_db_reader::payload::records_from_item;
use erigon_db_reader::payload::same_address;
use erigon_db_reader::payload::Item;
use erigon_db_reader::payload::PayloadDecodeError;
use erigon_db_reader::types::KvLog;
use serde_cbor::Value;

fn record_value(address: &[u8], topics: &[Vec<u8>], data: Option<&[u8]>) -> Value {
    let topics = topics.iter().map(|t| Value::Bytes(t.clone())).collect();
    let data = match data {
        Some(bytes) => Value::Bytes(bytes.to_vec()),
        None => Value::Null,
    };
    Value::Array(vec![Value::Bytes(address.to_vec()), Value::Array(topics), data])
}

fn encode(value: &Value) -> Vec<u8> {
    serde_cbor::to_vec(value).unwrap()
}

fn record_item(address: &[u8], topics: &[Vec<u8>], data: Option<&[u8]>) -> Item {
    let topics = topics.iter().map(|t| Item::Bytes(t.clone())).collect();
    let data = match data {
        Some(bytes) => Item::Bytes(bytes.to_vec()),
        None => Item::Null,
    };
    Item::Array(vec![Item::Bytes(address.to_vec()), Item::Array(topics), data])
}

#[test]
fn decode_logs_reads_a_hand_written_payload() {
    // array(1) [ array(3) [ bytes(20), array(1) [ bytes(32) ], bytes(3) ] ]
    let mut bytes = vec![0x81, 0x83, 0x54];
    bytes.extend_from_slice(&[0x11; 20]);
    bytes.extend_from_slice(&[0x81, 0x58, 0x20]);
    bytes.extend_from_slice(&[0x22; 32]);
    bytes.extend_from_slice(&[0x43, 1, 2, 3]);
    let logs = decode_logs(&bytes).unwrap();
    assert_eq!(logs.len(), 1);
    assert_eq!(logs[0].address, [0x11; 20]);
    assert_eq!(logs[0].topics, vec![[0x22; 32]]);
    assert_eq!(logs[0].data, Some(vec![1, 2, 3]));
}

#[test]
fn decode_logs_keeps_the_order_of_records_and_topics() {
    let mut t0 = vec![0u8; 32];
    t0[31] = 1;
    let mut t1 = vec![0u8; 32];
    t1[0] = 2;
    let payload = encode(&Value::Array(vec![
        record_value(&[1; 20], &[t0.clone(), t1.clone()], Some(&[9, 8])),
        record_value(&[2; 20], &[], None),
        record_value(&[3; 20], &[t1.clone()], Some(&[])),
    ]));
    let logs = decode_logs(&payload).unwrap();
    assert_eq!(logs.len(), 3);
    assert_eq!(logs[0].address, [1; 20]);
    assert_eq!(logs[0].topics.len(), 2);
    assert_eq!(logs[0].topics[0].to_vec(), t0);
    assert_eq!(logs[0].topics[1].to_vec(), t1);
    assert_eq!(logs[0].data, Some(vec![9, 8]));
    assert_eq!(logs[1].address, [2; 20]);
    assert!(logs[1].topics.is_empty());
    assert_eq!(logs[1].data, None);
    assert_eq!(logs[2].address, [3; 20]);
    assert_eq!(logs[2].topics[0].to_vec(), t1);
    assert_eq!(logs[2].data, Some(vec![]));
}

#[test]
fn decode_logs_of_an_empty_list() {
    assert_eq!(decode_logs(&[0x80]).unwrap().len(), 0);
}

#[test]
fn decode_logs_accepts_four_topics_and_rejects_five() {
    let topics: Vec<Vec<u8>> = (0..5u8).map(|i| vec![i; 32]).collect();
    let four = encode(&Value::Array(vec![record_value(&[7; 20], &topics[..4], None)]));
    let logs = decode_logs(&four).unwrap();
    assert_eq!(logs[0].topics.len(), 4);
    assert_eq!(logs[0].topics[3], [3u8; 32]);
    let five = encode(&Value::Array(vec![record_value(&[7; 20], &topics, None)]));
    assert_eq!(decode_logs(&five).err(), Some(PayloadDecodeError::Shape));
}

#[test]
fn decode_logs_rejects_bytes_that_are_no_data_item() {
    assert_eq!(decode_logs(&[0xff]).err(), Some(PayloadDecodeError::Syntax));
    assert_eq!(decode_logs(&[0x81]).err(), Some(PayloadDecodeError::Syntax));
    assert_eq!(decode_logs(&[0x54, 1, 2]).err(), Some(PayloadDecodeError::Syntax));
    // one item followed by another byte
    assert_eq!(decode_logs(&[0x80, 0x00]).err(), Some(PayloadDecodeError::Syntax));
}

#[test]
fn decode_logs_rejects_items_that_are_no_record_list() {
    assert_eq!(decode_logs(&[0x01]).err(), Some(PayloadDecodeError::Shape));
    assert_eq!(decode_logs(&[0xf6]).err(), Some(PayloadDecodeError::Shape));
    assert_eq!(decode_logs(&[0x41, 0x00]).err(), Some(PayloadDecodeError::Shape));
    assert_eq!(decode_logs(&[0xa0]).err(), Some(PayloadDecodeError::Shape));
    assert_eq!(decode_logs(&[0x81, 0x01]).err(), Some(PayloadDecodeError::Shape));
}

#[test]
fn decode_logs_rejects_misshapen_records() {
    let good_topic = vec![5u8; 32];
    let cases = vec![
        // address too short and too long
        record_value(&[1; 19], &[], None),
        record_value(&[1; 21], &[], None),
        // topic too short
        record_value(&[1; 20], &[vec![5u8; 31]], None),
        // two fields only
        Value::Array(vec![Value::Bytes(vec![1; 20]), Value::Array(vec![])]),
        // four fields
        Value::Array(vec![Value::Bytes(vec![1; 20]), Value::Array(vec![]), Value::Null, Value::Null]),
        // topics null
        Value::Array(vec![Value::Bytes(vec![1; 20]), Value::Null, Value::Null]),
        // data a number
        Value::Array(vec![Value::Bytes(vec![1; 20]), Value::Array(vec![]), Value::Integer(3)]),
        // address a text
        Value::Array(vec![Value::Text("x".repeat(20)), Value::Array(vec![]), Value::Null]),
        // a topic that is a text
        Value::Array(vec![
            Value::Bytes(vec![1; 20]),
            Value::Array(vec![Value::Bytes(good_topic.clone()), Value::Text("t".repeat(32))]),
            Value::Null,
        ]),
    ];
    for case in cases {
        let payload = encode(&Value::Array(vec![record_value(&[9; 20], &[], None), case]));
        assert_eq!(decode_logs(&payload).err(), Some(PayloadDecodeError::Shape));
    }
}

#[test]
fn record_from_item_reads_the_three_fields() {
    let item = record_item(&[4; 20], &[vec![6; 32]], Some(&[1]));
    let log = record_from_item(&item).unwrap();
    assert_eq!(log.address, [4; 20]);
    assert_eq!(log.topics, vec![[6; 32]]);
    assert_eq!(log.data, Some(vec![1]));
    assert!(record_from_item(&Item::Null).is_none());
    assert!(record_from_item(&Item::Other).is_none());
    assert!(record_from_item(&Item::Bytes(vec![4; 20])).is_none());
    assert!(record_from_item(&Item::Array(vec![])).is_none());
    assert!(record_from_item(&record_item(&[4; 20], &[], Some(&[]))).unwrap().data == Some(vec![]));
    assert!(record_from_item(&Item::Array(vec![Item::Bytes(vec![4; 20]), Item::Array(vec![]), Item::Other])).is_none());
}

#[test]
fn records_from_item_fails_on_the_first_bad_record() {
    let good = record_item(&[4; 20], &[], None);
    let bad = record_item(&[4; 2], &[], None);
    assert_eq!(records_from_item(&Item::Array(vec![good, bad])).err(), Some(PayloadDecodeError::Shape));
    assert_eq!(records_from_item(&Item::Other).err(), Some(PayloadDecodeError::Shape));
    assert_eq!(records_from_item(&Item::Array(vec![])).unwrap().len(), 0);
}

fn log(address: u8, tag: u8) -> KvLog {
    KvLog { address: [address; 20], topics: vec![], data: Some(vec![tag]) }
}

#[test]
fn filter_logs_keeps_matching_addresses_in_order() {
    let logs = vec![log(1, 10), log(2, 11), log(1, 12), log(3, 13), log(1, 14)];
    let kept = filter_logs(logs, &Some([1; 20]));
    let tags: Vec<u8> = kept.iter().map(|l| l.data.clone().unwrap()[0]).collect();
    assert_eq!(tags, vec![10, 12, 14]);
    assert!(kept.iter().all(|l| l.address == [1; 20]));
}

#[test]
fn filter_logs_without_filter_keeps_everything() {
    let logs = vec![log(1, 10), log(2, 11), log(3, 12)];
    let kept = filter_logs(logs, &None);
    let tags: Vec<u8> = kept.iter().map(|l| l.data.clone().unwrap()[0]).collect();
    assert_eq!(tags, vec![10, 11, 12]);
}

#[test]
fn filter_logs_may_keep_nothing() {
    let kept = filter_logs(vec![log(1, 10), log(2, 11)], &Some([9; 20]));
    assert!(kept.is_empty());
    assert!(filter_logs(vec![], &Some([9; 20])).is_empty());
}

#[test]
fn same_address_compares_all_twenty_bytes() {
    let a = [7u8; 20];
    let mut b = [7u8; 20];
    assert!(same_address(&a, &b));
    b[19] = 8;
    assert!(!same_address(&a, &b));
    b[19] = 7;
    b[0] = 0;
    assert!(!same_address(&a, &b));
}

#[test]
fn kv_log_clone_is_equal() {
    let full = KvLog { address: [3; 20], topics: vec![[1; 32], [2; 32]], data: Some(vec![5, 6]) };
    let copy = full.clone();
    assert_eq!(copy.address, full.address);
    assert_eq!(copy.topics, full.topics);
    assert_eq!(copy.data, full.data);
    let bare = KvLog { address: [3; 20], topics: vec![], data: None };
    let copy = bare.clone();
    assert!(copy.topics.is_empty());
    assert_eq!(copy.data, None);
}
