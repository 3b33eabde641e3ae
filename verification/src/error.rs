//! What can go wrong while answers are asked for and read.

use crate::record_type::RecordType;
use vstd::prelude::*;

verus! {

/// The data field of an answer line does not fit the record type.
#[derive(Clone, Copy, Debug, PartialEq, Eq, Structural)]
pub enum RDataParseError {
    /// An address type whose data is no IP literal.
    InvalidIpAddr,
    /// A name type, given here, whose data is no domain name.
    InvalidName(RecordType),
}

/// An answer line is not a record.
#[derive(Clone, Copy, Debug, PartialEq, Eq, Structural)]
pub enum RecordParseError {
    /// The line does not have five fields.
    NotEnoughArguments,
    /// The owner name is no domain name.
    InvalidDomainName,
    /// The TTL is no unsigned 32-bit number.
    InvalidTtl,
    /// The record type is not known.
    InvalidRecord,
    /// The data does not fit the record type.
    InvalidRData(RDataParseError),
}

/// One round of queries failed as a whole.
#[derive(Clone, Copy, Debug, PartialEq, Eq, Structural)]
pub enum QueryError {
    /// The query tool could not be run.
    CommandError,
    /// The output of the query tool is not UTF-8.
    StringConvertError,
    /// A domain name that was asked for is no domain name.
    TrustDnsProtoError,
    /// A record could not be read.
    RecordParseError(RecordParseError),
}

} // verus!
