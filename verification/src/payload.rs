//! Payloads of the store: the list of log records filed under one key.
//!
//! A payload is one CBOR data item: an array of records, each record an
//! array of three items: the address (a byte string of twenty bytes), the
//! topics (an array of at most four byte strings of thirty-two bytes each)
//! and the data (a byte string, or null where the record has none).

use crate::types::Address;
use crate::types::KvLog;
use crate::types::LogRecord;
use crate::types::Topic;
use crate::types::MAX_TOPICS;
use crate::types::address_from_bytes;
use crate::types::copy_bytes;
use crate::types::topic_from_bytes;
use crate::types::data_view;
use crate::types::topics_view;
use vstd::prelude::*;

verus! {

/// A CBOR data item, as far as log records are made of them.
#[derive(Debug)]
pub enum Item {
    /// The null item.
    Null,
    /// A byte string.
    Bytes(Vec<u8>),
    /// An array of items.
    Array(Vec<Item>),
    /// An item of any other kind: a number, a text, a map and so on.
    Other,
}

/// Why a payload was rejected.
#[derive(Debug, Clone, Copy, PartialEq, Eq)]
pub enum PayloadDecodeError {
    /// The bytes are not one well-formed CBOR data item.
    Syntax,
    /// The data item is not a list of log records.
    Shape,
}

/// `serde_cbor::Value`, the tree that the CBOR reader builds. Nothing is
/// known of it here but what `value_item` names.
#[verifier::external_type_specification]
#[verifier::external_body]
pub struct ExCborValue(serde_cbor::Value);

/// `serde_cbor::Error`, the error of the CBOR reader. It is carried, never
/// read.
#[verifier::external_type_specification]
#[verifier::external_body]
pub struct ExCborError(serde_cbor::Error);

/// The data item that `serde_cbor::from_slice` reads from a byte string, or
/// `None` where it reports an error.
pub uninterp spec fn cbor_item(bytes: Seq<u8>) -> Option<Item>;

/// What a value of `serde_cbor::Value` holds: its null, byte string and
/// array variants as they are, every other variant as `Item::Other`.
pub uninterp spec fn value_item(value: serde_cbor::Value) -> Item;

/// `serde_cbor::from_slice` at the type `serde_cbor::Value`: the outcome
/// depends on the bytes alone, and is an error exactly where `cbor_item`
/// has no item for them.
#[verifier::external_body]
fn parse_value(bytes: &[u8]) -> (r: Result<serde_cbor::Value, serde_cbor::Error>)
    ensures
        match r {
            Ok(value) => cbor_item(bytes@) == Some(value_item(value)),
            Err(_) => cbor_item(bytes@) is None,
        },
{
    serde_cbor::from_slice::<serde_cbor::Value>(bytes)
}

/// Moves the contents of a `serde_cbor::Value` into an `Item`, variant by
/// variant and element by element.
#[verifier::external_body]
fn item_of_value(value: serde_cbor::Value) -> (item: Item)
    ensures
        item == value_item(value),
{
    match value {
        serde_cbor::Value::Null => Item::Null,
        serde_cbor::Value::Bytes(bytes) => Item::Bytes(bytes),
        serde_cbor::Value::Array(items) => Item::Array(
            items.into_iter().map(item_of_value).collect(),
        ),
        _ => Item::Other,
    }
}

/// The bytes of a topic item: a byte string of thirty-two bytes.
pub open spec fn topic_of(item: Item) -> Option<Seq<u8>> {
    match item {
        Item::Bytes(bytes) => if bytes@.len() == 32 {
            Some(bytes@)
        } else {
            None
        },
        _ => None,
    }
}

/// The bytes of an address item: a byte string of twenty bytes.
pub open spec fn address_of(item: Item) -> Option<Seq<u8>> {
    match item {
        Item::Bytes(bytes) => if bytes@.len() == 20 {
            Some(bytes@)
        } else {
            None
        },
        _ => None,
    }
}

/// The topics of a topics item: an array of at most four topic items.
pub open spec fn topics_of(item: Item) -> Option<Seq<Seq<u8>>> {
    match item {
        Item::Array(items) => if items@.len() <= MAX_TOPICS && (forall|i: int|
            0 <= i < items@.len() ==> topic_of(#[trigger] items@[i]) is Some) {
            Some(Seq::new(items@.len(), |i: int| topic_of(items@[i]).unwrap()))
        } else {
            None
        },
        _ => None,
    }
}

/// The data of a data item: absent for null, the bytes of a byte string.
pub open spec fn data_of(item: Item) -> Option<Option<Seq<u8>>> {
    match item {
        Item::Null => Some(None),
        Item::Bytes(bytes) => Some(Some(bytes@)),
        _ => None,
    }
}

/// The record of a record item: an array of address, topics and data.
pub open spec fn record_of(item: Item) -> Option<LogRecord> {
    match item {
        Item::Array(fields) => if fields@.len() == 3 && address_of(fields@[0]) is Some
            && topics_of(fields@[1]) is Some && data_of(fields@[2]) is Some {
            Some(
                LogRecord {
                    address: address_of(fields@[0]).unwrap(),
                    topics: topics_of(fields@[1]).unwrap(),
                    data: data_of(fields@[2]).unwrap(),
                },
            )
        } else {
            None
        },
        _ => None,
    }
}

/// The records of a payload item: an array of record items.
pub open spec fn records_of(item: Item) -> Option<Seq<LogRecord>> {
    match item {
        Item::Array(items) => if forall|i: int|
            0 <= i < items@.len() ==> record_of(#[trigger] items@[i]) is Some {
            Some(Seq::new(items@.len(), |i: int| record_of(items@[i]).unwrap()))
        } else {
            None
        },
        _ => None,
    }
}

/// The records that a payload holds, or the reason why it holds none.
pub open spec fn payload_records(bytes: Seq<u8>) -> Result<Seq<LogRecord>, PayloadDecodeError> {
    match cbor_item(bytes) {
        None => Err(PayloadDecodeError::Syntax),
        Some(item) => match records_of(item) {
            None => Err(PayloadDecodeError::Shape),
            Some(records) => Ok(records),
        },
    }
}

/// The records that a list of logs stands for.
pub open spec fn logs_view(logs: Seq<KvLog>) -> Seq<LogRecord> {
    Seq::new(logs.len(), |i: int| logs[i]@)
}

/// Every record of the list is well formed.
pub open spec fn records_wf(records: Seq<LogRecord>) -> bool {
    forall|i: int| 0 <= i < records.len() ==> (#[trigger] records[i]).wf()
}

/// The records of a payload are well formed: an address of twenty bytes and
/// at most four topics of thirty-two bytes each.
pub proof fn lemma_payload_records_wf(bytes: Seq<u8>)
    ensures
        payload_records(bytes) matches Ok(records) ==> records_wf(records),
{
    if let Some(item) = cbor_item(bytes) {
        if let Some(records) = records_of(item) {
            assert forall|i: int| 0 <= i < records.len() implies (#[trigger] records[i]).wf() by {
                let items = item->Array_0;
                assert(record_of(items@[i]) is Some);
                let fields = items@[i]->Array_0;
                let topics = fields@[1]->Array_0;
                assert forall|k: int| 0 <= k < records[i].topics.len() implies (
                #[trigger] records[i].topics[k]).len() == 32 by {
                    assert(topic_of(topics@[k]) is Some);
                }
            }
        }
    }
}

/// Reads an address from its data item.
fn address_from_item(item: &Item) -> (r: Option<Address>)
    ensures
        match address_of(*item) {
            Some(bytes) => r matches Some(a) && a@ == bytes,
            None => r is None,
        },
{
    match item {
        Item::Bytes(bytes) => address_from_bytes(bytes.as_slice()),
        _ => None,
    }
}

/// Reads a topic from its data item.
fn topic_from_item(item: &Item) -> (r: Option<Topic>)
    ensures
        match topic_of(*item) {
            Some(bytes) => r matches Some(t) && t@ == bytes,
            None => r is None,
        },
{
    match item {
        Item::Bytes(bytes) => topic_from_bytes(bytes.as_slice()),
        _ => None,
    }
}

/// Reads the topics from their data item.
fn topics_from_item(item: &Item) -> (r: Option<Vec<Topic>>)
    ensures
        match topics_of(*item) {
            Some(topics) => r matches Some(v) && topics_view(v@) == topics,
            None => r is None,
        },
{
    match item {
        Item::Array(items) => {
            if items.len() > MAX_TOPICS {
                return None;
            }
            let mut out: Vec<Topic> = Vec::new();
            let mut i: usize = 0;
            while i < items.len()
                invariant
                    *item == Item::Array(*items),
                    i <= items@.len(),
                    out@.len() == i,
                    forall|j: int| 0 <= j < i ==> topic_of(#[trigger] items@[j]) == Some(out@[j]@),
                decreases items@.len() - i,
            {
                match topic_from_item(&items[i]) {
                    Some(topic) => {
                        out.push(topic);
                    },
                    None => {
                        assert(topic_of(items@[i as int]) is None);
                        return None;
                    },
                }
                i = i + 1;
            }
            assert(topics_view(out@) =~= topics_of(*item).unwrap());
            Some(out)
        },
        _ => None,
    }
}

/// Reads the data from its data item.
fn data_from_item(item: &Item) -> (r: Option<Option<Vec<u8>>>)
    ensures
        match data_of(*item) {
            Some(data) => r matches Some(d) && data_view(d) == data,
            None => r is None,
        },
{
    match item {
        Item::Null => Some(None),
        Item::Bytes(bytes) => Some(Some(copy_bytes(bytes.as_slice()))),
        _ => None,
    }
}

/// Reads one log record from its data item.
pub fn record_from_item(item: &Item) -> (r: Option<KvLog>)
    ensures
        match record_of(*item) {
            Some(record) => r matches Some(log) && log@ == record,
            None => r is None,
        },
{
    match item {
        Item::Array(fields) => {
            if fields.len() != 3 {
                return None;
            }
            let address = match address_from_item(&fields[0]) {
                Some(address) => address,
                None => {
                    return None;
                },
            };
            let topics = match topics_from_item(&fields[1]) {
                Some(topics) => topics,
                None => {
                    return None;
                },
            };
            let data = match data_from_item(&fields[2]) {
                Some(data) => data,
                None => {
                    return None;
                },
            };
            Some(KvLog { address, topics, data })
        },
        _ => None,
    }
}

/// Reads the list of log records from the data item of a payload.
pub fn records_from_item(item: &Item) -> (r: Result<Vec<KvLog>, PayloadDecodeError>)
    ensures
        match records_of(*item) {
            Some(records) => r matches Ok(logs) && logs_view(logs@) == records,
            None => r == Err::<Vec<KvLog>, PayloadDecodeError>(PayloadDecodeError::Shape),
        },
{
    match item {
        Item::Array(items) => {
            let mut out: Vec<KvLog> = Vec::new();
            let mut i: usize = 0;
            while i < items.len()
                invariant
                    *item == Item::Array(*items),
                    i <= items@.len(),
                    out@.len() == i,
                    forall|j: int| 0 <= j < i ==> record_of(#[trigger] items@[j]) == Some(out@[j]@),
                decreases items@.len() - i,
            {
                match record_from_item(&items[i]) {
                    Some(log) => {
                        out.push(log);
                    },
                    None => {
                        assert(record_of(items@[i as int]) is None);
                        return Err(PayloadDecodeError::Shape);
                    },
                }
                i = i + 1;
            }
            assert(logs_view(out@) =~= records_of(*item).unwrap());
            Ok(out)
        },
        _ => Err(PayloadDecodeError::Shape),
    }
}

/// Decodes the payload of a store entry into its log records.
pub fn decode_logs(payload: &[u8]) -> (r: Result<Vec<KvLog>, PayloadDecodeError>)
    ensures
        match payload_records(payload@) {
            Ok(records) => r matches Ok(logs) && logs_view(logs@) == records,
            Err(e) => r == Err::<Vec<KvLog>, PayloadDecodeError>(e),
        },
{
    match parse_value(payload) {
        Ok(value) => {
            let item = item_of_value(value);
            records_from_item(&item)
        },
        Err(_) => Err(PayloadDecodeError::Syntax),
    }
}

/// The bytes of an optional address.
pub open spec fn filter_view(filter: Option<Address>) -> Option<Seq<u8>> {
    match filter {
        Some(address) => Some(address@),
        None => None,
    }
}

/// Whether a record passes the address filter: every record passes where
/// none is set, else those of the given address.
pub open spec fn passes(record: LogRecord, filter: Option<Seq<u8>>) -> bool {
    match filter {
        Some(address) => record.address == address,
        None => true,
    }
}

/// The test that `passes` applies for a given filter.
pub open spec fn passing(filter: Option<Seq<u8>>) -> spec_fn(LogRecord) -> bool {
    |record: LogRecord| passes(record, filter)
}

/// The records that pass the filter, in their order.
pub open spec fn retained(records: Seq<LogRecord>, filter: Option<Seq<u8>>) -> Seq<LogRecord> {
    records.filter(passing(filter))
}

/// Whether two addresses are the same.
pub fn same_address(a: &Address, b: &Address) -> (same: bool)
    ensures
        same == (a@ == b@),
{
    let mut i: usize = 0;
    while i < 20
        invariant
            i <= 20,
            forall|j: int| 0 <= j < i ==> a@[j] == b@[j],
        decreases 20 - i,
    {
        if a[i] != b[i] {
            return false;
        }
        i = i + 1;
    }
    assert(a@ =~= b@);
    true
}

/// Keeps the logs that pass the address filter, in their order.
pub fn filter_logs(logs: Vec<KvLog>, filter: &Option<Address>) -> (kept: Vec<KvLog>)
    ensures
        logs_view(kept@) == retained(logs_view(logs@), filter_view(*filter)),
{
    let ghost all = logs@;
    let ghost wanted = filter_view(*filter);
    let mut kept: Vec<KvLog> = Vec::new();
    assert(logs_view(all.take(0)) =~= Seq::<LogRecord>::empty());
    for log in it: logs.into_iter()
        invariant
            logs_view(kept@) == retained(logs_view(all.take(it.index() as int)), wanted),
            it.seq() == all,
            wanted == filter_view(*filter),
    {
        let ghost i = it.index() as int;
        let ghost before = logs_view(kept@);
        let keep = match filter {
            Some(address) => same_address(&log.address, address),
            None => true,
        };
        proof {
            assert(logs_view(all.take(i + 1)) =~= logs_view(all.take(i)).push(log@));
            logs_view(all.take(i)).lemma_filter_push(log@, passing(wanted));
        }
        if keep {
            kept.push(log);
            assert(logs_view(kept@) =~= before.push(log@));
        }
    }
    assert(all.take(all.len() as int) =~= all);
    kept
}

} // verus!
