//! Records, and the identity under which observations of one record are
//! counted together.

use crate::name::{wire_form, DomainName, NameKey};
use crate::record_type::{DnsClass, RecordType};
use vstd::prelude::*;

verus! {

/// The data of a resource record.
#[derive(Clone, Debug)]
pub enum RData {
    /// An IPv4 address, as its octets.
    A([u8; 4]),
    /// An IPv6 address, as its octets.
    AAAA([u8; 16]),
    /// The name that an alias record refers to.
    ANAME(DomainName),
    /// The canonical name.
    CNAME(DomainName),
    /// The name of a name server.
    NS(DomainName),
    /// The octets of a null record.
    NULL(Vec<u8>),
    /// The name that a pointer record refers to.
    PTR(DomainName),
    /// The octets of a record of another type, and the number of that type.
    Unknown { code: u16, rdata: Vec<u8> },
}

/// One resource record of an answer.
#[derive(Clone, Debug)]
pub struct Record {
    /// The owner name.
    pub name: DomainName,
    /// The time to live, in seconds.
    pub ttl: u32,
    /// The class.
    pub dns_class: DnsClass,
    /// The data, which also decides the record type.
    pub rdata: RData,
}

/// What observations of one record have in common: the key of the owner
/// name, the record type, the class, and the data in wire form. The TTL
/// is no part of it.
#[verifier::ext_equal]
pub struct RecordIdentity {
    pub name: NameKey,
    pub record_type: RecordType,
    pub dns_class: DnsClass,
    pub rdata: Seq<u8>,
}

/// A record that is compared by its identity.
#[derive(Clone, Debug)]
pub struct RecordWrapper {
    record: Record,
}

impl RData {
    /// The record type that goes with the data.
    pub open spec fn record_type(self) -> RecordType {
        match self {
            RData::A(_) => RecordType::A,
            RData::AAAA(_) => RecordType::AAAA,
            RData::ANAME(_) => RecordType::ANAME,
            RData::CNAME(_) => RecordType::CNAME,
            RData::NS(_) => RecordType::NS,
            RData::NULL(_) => RecordType::NULL,
            RData::PTR(_) => RecordType::PTR,
            RData::Unknown { code, .. } => RecordType::Unknown(code),
        }
    }

    /// The data in wire form: the octets of an address, the wire form of a
    /// name in lower case, the octets of any other data as they are.
    pub open spec fn wire(self) -> Seq<u8> {
        match self {
            RData::A(a) => a@,
            RData::AAAA(a) => a@,
            RData::ANAME(n) => wire_form(n@.labels),
            RData::CNAME(n) => wire_form(n@.labels),
            RData::NS(n) => wire_form(n@.labels),
            RData::NULL(bytes) => bytes@,
            RData::PTR(n) => wire_form(n@.labels),
            RData::Unknown { rdata, .. } => rdata@,
        }
    }

    /// The record type that goes with the data.
    pub fn to_record_type(&self) -> (out: RecordType)
        ensures
            out == self.record_type(),
    {
        match self {
            RData::A(_) => RecordType::A,
            RData::AAAA(_) => RecordType::AAAA,
            RData::ANAME(_) => RecordType::ANAME,
            RData::CNAME(_) => RecordType::CNAME,
            RData::NS(_) => RecordType::NS,
            RData::NULL(_) => RecordType::NULL,
            RData::PTR(_) => RecordType::PTR,
            RData::Unknown { code, .. } => RecordType::Unknown(*code),
        }
    }

    /// The data in wire form.
    pub fn to_wire(&self) -> (out: Vec<u8>)
        ensures
            out@ == self.wire(),
    {
        match self {
            RData::A(a) => copy_octets(a.as_slice()),
            RData::AAAA(a) => copy_octets(a.as_slice()),
            RData::ANAME(n) => n.wire(),
            RData::CNAME(n) => n.wire(),
            RData::NS(n) => n.wire(),
            RData::NULL(bytes) => copy_octets(bytes.as_slice()),
            RData::PTR(n) => n.wire(),
            RData::Unknown { rdata, .. } => copy_octets(rdata.as_slice()),
        }
    }
}

/// A copy of `bytes`.
pub fn copy_octets(bytes: &[u8]) -> (out: Vec<u8>)
    ensures
        out@ == bytes@,
{
    let mut out: Vec<u8> = Vec::new();
    let mut i: usize = 0;
    while i < bytes.len()
        invariant
            0 <= i <= bytes.len(),
            out@ == bytes@.take(i as int),
        decreases bytes.len() - i,
    {
        out.push(bytes[i]);
        i += 1;
    }
    proof {
        assert(bytes@.take(bytes.len() as int) == bytes@);
    }
    out
}

/// Whether two octet strings are equal.
pub fn same_octets(a: &Vec<u8>, b: &Vec<u8>) -> (r: bool)
    ensures
        r == (a@ == b@),
{
    if a.len() != b.len() {
        return false;
    }
    let mut i: usize = 0;
    while i < a.len()
        invariant
            0 <= i <= a.len(),
            a.len() == b.len(),
            forall|k: int| 0 <= k < i ==> a@[k] == b@[k],
        decreases a.len() - i,
    {
        if a[i] != b[i] {
            return false;
        }
        i += 1;
    }
    proof {
        assert(a@ =~= b@);
    }
    true
}

/// The identity of a record.
pub open spec fn identity_of(r: Record) -> RecordIdentity {
    RecordIdentity {
        name: r.name.key(),
        record_type: r.rdata.record_type(),
        dns_class: r.dns_class,
        rdata: r.rdata.wire(),
    }
}

impl Record {
    /// A record of class `IN` with the given owner name, TTL and data.
    pub fn from_rdata(name: DomainName, ttl: u32, rdata: RData) -> (out: Record)
        ensures
            out == (Record { name, ttl, dns_class: DnsClass::IN, rdata }),
    {
        Record { name, ttl, dns_class: DnsClass::IN, rdata }
    }

    /// The owner name.
    pub fn name(&self) -> (out: &DomainName)
        ensures
            *out == self.name,
    {
        &self.name
    }

    /// The time to live.
    pub fn ttl(&self) -> (out: u32)
        ensures
            out == self.ttl,
    {
        self.ttl
    }

    /// The record type.
    pub fn record_type(&self) -> (out: RecordType)
        ensures
            out == self.rdata.record_type(),
    {
        self.rdata.to_record_type()
    }

    /// The class.
    pub fn dns_class(&self) -> (out: DnsClass)
        ensures
            out == self.dns_class,
    {
        self.dns_class
    }

    /// The data.
    pub fn rdata(&self) -> (out: &RData)
        ensures
            *out == self.rdata,
    {
        &self.rdata
    }
}

impl RecordWrapper {
    /// The record inside.
    pub closed spec fn record(self) -> Record {
        self.record
    }

    /// The identity of the record inside.
    pub open spec fn identity(self) -> RecordIdentity {
        identity_of(self.record())
    }

    /// Wraps a record.
    pub fn new(r: Record) -> (out: RecordWrapper)
        ensures
            out.record() == r,
    {
        RecordWrapper { record: r }
    }

    /// Hands the record back.
    pub fn unwrap(self) -> (out: Record)
        ensures
            out == self.record(),
    {
        self.record
    }

    /// The record inside.
    pub fn get(&self) -> (out: &Record)
        ensures
            *out == self.record(),
    {
        &self.record
    }

    /// Whether two records have the same identity: the same owner name,
    /// type, class and data, whatever their TTLs.
    pub fn same_identity(&self, other: &RecordWrapper) -> (r: bool)
        ensures
            r == (self.identity() == other.identity()),
    {
        if !self.record.name.same_name(&other.record.name) {
            return false;
        }
        if self.record.record_type() != other.record.record_type() {
            return false;
        }
        if self.record.dns_class != other.record.dns_class {
            return false;
        }
        let a = self.record.rdata.to_wire();
        let b = other.record.rdata.to_wire();
        same_octets(&a, &b)
    }
}

/// Records that differ in nothing but their TTL have the same identity.
pub proof fn lemma_identity_ignores_ttl(r1: Record, r2: Record)
    requires
        r1.name == r2.name,
        r1.rdata == r2.rdata,
        r1.dns_class == r2.dns_class,
    ensures
        identity_of(r1) == identity_of(r2),
{
}

} // verus!
