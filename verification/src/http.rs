//! The request that starts a job.

use crate::types::Address;
use std::str::FromStr;
use vstd::prelude::*;

verus! {

/// The parameters of a job as a caller gives them.
#[derive(Debug)]
pub struct ExecJobRequest {
    /// Name of the job and of its output file.
    pub job_id: String,
    /// First block of the range.
    pub block_number_start: u64,
    /// Last block of the range.
    pub block_number_end: u64,
    /// Address of the contract whose logs are wanted, in hexadecimal.
    pub contract: Option<String>,
}

/// Why a request starts no job.
#[derive(Debug, Clone, Copy, PartialEq, Eq)]
pub enum RequestError {
    /// The contract given is not the hexadecimal form of an address.
    BadContract,
}

/// The twenty bytes that `ethers_core::types::Address::from_str` reads from
/// a text, or `None` where it reports an error.
pub uninterp spec fn hex_address(text: Seq<char>) -> Option<Seq<u8>>;

/// `ethers_core::types::Address::from_str`: the outcome depends on the text
/// alone; an address has twenty bytes.
#[verifier::external_body]
fn parse_address(text: &str) -> (r: Option<Address>)
    ensures
        match r {
            Some(address) => hex_address(text@) == Some(address@),
            None => hex_address(text@) is None,
        },
{
    ethers_core::types::Address::from_str(text).ok().map(|address| address.0)
}

/// The filter that a parsed contract stands for: a contract that was given
/// but is no address fails the request.
pub fn filter_of_parsed(parsed: Option<Address>) -> (r: Result<Option<Address>, RequestError>)
    ensures
        r == match parsed {
            Some(address) => Ok::<Option<Address>, RequestError>(Some(address)),
            None => Err::<Option<Address>, RequestError>(RequestError::BadContract),
        },
{
    match parsed {
        Some(address) => Ok(Some(address)),
        None => Err(RequestError::BadContract),
    }
}

impl ExecJobRequest {
    /// The address filter of the request: none where no contract is given,
    /// the address that the contract spells out, or an error where it spells
    /// out none.
    pub fn contract_address(&self) -> (r: Result<Option<Address>, RequestError>)
        ensures
            match self.contract {
                None => r == Ok::<Option<Address>, RequestError>(None),
                Some(text) => match hex_address(text@) {
                    Some(bytes) => r matches Ok(Some(address)) && address@ == bytes,
                    None => r == Err::<Option<Address>, RequestError>(RequestError::BadContract),
                },
            },
    {
        match &self.contract {
            None => Ok(None),
            Some(text) => filter_of_parsed(parse_address(text.as_str())),
        }
    }
}

} // verus!
