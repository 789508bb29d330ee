//! The records that travel through a job and their mathematical models.

use vstd::prelude::*;

verus! {

/// A contract address: twenty bytes.
pub type Address = [u8; 20];

/// An indexed topic of a log record: thirty-two bytes.
pub type Topic = [u8; 32];

/// Largest number of topics that a log record carries.
pub const MAX_TOPICS: usize = 4;

/// One event log as the store holds it.
#[derive(Debug)]
pub struct KvLog {
    /// Address of the contract that emitted the event.
    pub address: Address,
    /// Topics given by the contract, at most four.
    pub topics: Vec<Topic>,
    /// Payload given by the contract, if any.
    pub data: Option<Vec<u8>>,
}

/// What a log record says, as plain sequences of bytes.
pub ghost struct LogRecord {
    pub address: Seq<u8>,
    pub topics: Seq<Seq<u8>>,
    pub data: Option<Seq<u8>>,
}

/// One row of a job's output: a log record with the position of the
/// transaction that produced it.
pub ghost struct Row {
    pub block: u64,
    pub tx_index: u32,
    pub log: LogRecord,
}

impl LogRecord {
    /// The address has twenty bytes, and there are at most four topics of
    /// thirty-two bytes each.
    pub open spec fn wf(self) -> bool {
        &&& self.address.len() == 20
        &&& self.topics.len() <= MAX_TOPICS
        &&& forall|i: int| 0 <= i < self.topics.len() ==> (#[trigger] self.topics[i]).len() == 32
    }
}

/// The byte strings of a list of topics.
pub open spec fn topics_view(topics: Seq<Topic>) -> Seq<Seq<u8>> {
    Seq::new(topics.len(), |i: int| topics[i]@)
}

/// The bytes of an optional byte buffer.
pub open spec fn data_view(data: Option<Vec<u8>>) -> Option<Seq<u8>> {
    match data {
        Some(bytes) => Some(bytes@),
        None => None,
    }
}

impl View for KvLog {
    type V = LogRecord;

    open spec fn view(&self) -> LogRecord {
        LogRecord {
            address: self.address@,
            topics: topics_view(self.topics@),
            data: data_view(self.data),
        }
    }
}

/// A copy of a byte string.
pub fn copy_bytes(bytes: &[u8]) -> (copy: Vec<u8>)
    ensures
        copy@ == bytes@,
{
    let mut copy: Vec<u8> = Vec::with_capacity(bytes.len());
    let mut i: usize = 0;
    while i < bytes.len()
        invariant
            i <= bytes@.len(),
            copy@ == bytes@.subrange(0, i as int),
        decreases bytes@.len() - i,
    {
        copy.push(bytes[i]);
        i = i + 1;
        assert(copy@ =~= bytes@.subrange(0, i as int));
    }
    assert(copy@ =~= bytes@);
    copy
}

/// The address that twenty bytes make up; none for any other number of
/// bytes.
pub fn address_from_bytes(bytes: &[u8]) -> (address: Option<Address>)
    ensures
        address is Some <==> bytes@.len() == 20,
        address matches Some(a) ==> a@ == bytes@,
{
    if bytes.len() != 20 {
        return None;
    }
    let mut out: Address = [0u8; 20];
    let mut i: usize = 0;
    while i < 20
        invariant
            i <= 20,
            bytes@.len() == 20,
            forall|j: int| 0 <= j < i ==> out@[j] == bytes@[j],
        decreases 20 - i,
    {
        out[i] = bytes[i];
        i = i + 1;
    }
    assert(out@ =~= bytes@);
    Some(out)
}

/// The topic that thirty-two bytes make up; none for any other number of
/// bytes.
pub fn topic_from_bytes(bytes: &[u8]) -> (topic: Option<Topic>)
    ensures
        topic is Some <==> bytes@.len() == 32,
        topic matches Some(t) ==> t@ == bytes@,
{
    if bytes.len() != 32 {
        return None;
    }
    let mut out: Topic = [0u8; 32];
    let mut i: usize = 0;
    while i < 32
        invariant
            i <= 32,
            bytes@.len() == 32,
            forall|j: int| 0 <= j < i ==> out@[j] == bytes@[j],
        decreases 32 - i,
    {
        out[i] = bytes[i];
        i = i + 1;
    }
    assert(out@ =~= bytes@);
    Some(out)
}

impl Clone for KvLog {
    /// A copy that holds the same address, topics and data.
    fn clone(&self) -> (copy: Self)
        ensures
            copy@ == self@,
    {
        let mut topics: Vec<Topic> = Vec::with_capacity(self.topics.len());
        let mut i: usize = 0;
        while i < self.topics.len()
            invariant
                i <= self.topics@.len(),
                topics@ == self.topics@.subrange(0, i as int),
            decreases self.topics@.len() - i,
        {
            topics.push(self.topics[i]);
            i = i + 1;
            assert(topics@ =~= self.topics@.subrange(0, i as int));
        }
        assert(topics@ =~= self.topics@);
        let data = match &self.data {
            Some(bytes) => Some(copy_bytes(bytes.as_slice())),
            None => None,
        };
        KvLog { address: self.address, topics, data }
    }
}

/// The row that a positioned record stands for.
pub open spec fn row_view(tx: (u64, u32, KvLog)) -> Row {
    Row { block: tx.0, tx_index: tx.1, log: tx.2@ }
}

/// The rows that a list of positioned records stands for.
pub open spec fn rows_view(txs: Seq<(u64, u32, KvLog)>) -> Seq<Row> {
    Seq::new(txs.len(), |i: int| row_view(txs[i]))
}

/// The bytes of an optional borrowed byte buffer.
pub open spec fn borrowed_view(data: Option<&Vec<u8>>) -> Option<Seq<u8>> {
    match data {
        Some(bytes) => Some(bytes@),
        None => None,
    }
}

/// A batch of rows handed from the scan to the writer.
pub struct LogChunk {
    /// Block number, transaction index and record of each row, in scan order.
    pub txs: Vec<(u64, u32, KvLog)>,
}

impl View for LogChunk {
    type V = Seq<Row>;

    open spec fn view(&self) -> Seq<Row> {
        rows_view(self.txs@)
    }
}

/// Settings of the service, as given on the command line or in the
/// environment.
#[derive(Debug)]
pub struct AppCfg {
    pub http_port: u16,
    pub http_address: String,
    pub db_path: String,
    pub result_path: String,
}

} // verus!
