//! Record types and classes.

use crate::text::chars_of;
use std::str::FromStr;
use trust_dns_proto::error::ProtoError;
use trust_dns_proto::rr;
use vstd::prelude::*;

verus! {

/// The type of a resource record, as far as the library tells types
/// apart: the address types, the types whose data is one domain name, the
/// null type, and every other type by its number.
#[derive(Clone, Copy, Debug, PartialEq, Eq, Hash, Structural)]
pub enum RecordType {
    /// IPv4 address.
    A,
    /// IPv6 address.
    AAAA,
    /// Alias of an address record.
    ANAME,
    /// Canonical name.
    CNAME,
    /// Name server.
    NS,
    /// Null record.
    NULL,
    /// Pointer.
    PTR,
    /// Any other type, by its number.
    Unknown(u16),
}

/// The class of a resource record.
#[derive(Clone, Copy, Debug, PartialEq, Eq, Hash, Structural)]
pub enum DnsClass {
    /// Internet.
    IN,
    /// Chaos.
    CH,
    /// Hesiod.
    HS,
    /// The query class "none".
    NONE,
    /// The query class "any".
    ANY,
    /// The payload size of an option record.
    OPT(u16),
}

/// The letters and digits of ASCII.
pub open spec fn is_alphanumeric(c: char) -> bool {
    let x = c as u32;
    48 <= x <= 57 || 65 <= x <= 90 || 97 <= x <= 122
}

/// Whether `s` holds letters and digits of ASCII only.
pub open spec fn all_alphanumeric(s: Seq<char>) -> bool {
    forall|i: int| 0 <= i < s.len() ==> is_alphanumeric(#[trigger] s[i])
}

/// The record type that the protocol crate knows under the name `token`,
/// or nothing where it knows none. A type that the library does not tell
/// apart stands as `Unknown` with its number.
pub uninterp spec fn named_record_type(token: Seq<char>) -> Option<RecordType>;

/// `RecordType::from_str` of trust-dns-proto. The result is the entry of
/// its table of type names for `token`: a type of its own where the
/// library has one, else `Unknown` with the number that the crate's
/// conversion to `u16` gives. A build with debug assertions stops on a
/// token with a character that is no letter or digit, so such tokens are
/// left out.
#[verifier::external_body]
fn record_type_from_str(token: &str) -> (out: Result<RecordType, ProtoError>)
    requires
        all_alphanumeric(token@),
    ensures
        match out {
            Ok(t) => named_record_type(token@) == Some(t),
            Err(_) => named_record_type(token@) is None,
        },
{
    rr::RecordType::from_str(token).map(|t| match t {
        rr::RecordType::A => RecordType::A,
        rr::RecordType::AAAA => RecordType::AAAA,
        rr::RecordType::ANAME => RecordType::ANAME,
        rr::RecordType::CNAME => RecordType::CNAME,
        rr::RecordType::NS => RecordType::NS,
        rr::RecordType::NULL => RecordType::NULL,
        rr::RecordType::PTR => RecordType::PTR,
        other => RecordType::Unknown(u16::from(other)),
    })
}

/// The name under which the protocol crate writes a record type.
pub uninterp spec fn record_type_text(t: RecordType) -> Seq<char>;

/// `Display` of trust-dns-proto's `RecordType` (through `to_string`), on
/// the type of the crate that stands for `t`: the type itself where the
/// library has one of its own, else the type that the crate's conversion
/// from `u16` gives for the number. The result is that type's name in the
/// crate's table of names.
#[verifier::external_body]
fn record_type_to_string(t: RecordType) -> (out: String)
    ensures
        out@ == record_type_text(t),
{
    let t = match t {
        RecordType::A => rr::RecordType::A,
        RecordType::AAAA => rr::RecordType::AAAA,
        RecordType::ANAME => rr::RecordType::ANAME,
        RecordType::CNAME => rr::RecordType::CNAME,
        RecordType::NS => rr::RecordType::NS,
        RecordType::NULL => rr::RecordType::NULL,
        RecordType::PTR => rr::RecordType::PTR,
        RecordType::Unknown(code) => rr::RecordType::from(code),
    };
    t.to_string()
}

/// The record type that `token` names: see [`RecordType::parse`].
pub open spec fn record_type_of(token: Seq<char>) -> Option<RecordType> {
    if all_alphanumeric(token) {
        named_record_type(token)
    } else {
        None
    }
}

impl RecordType {
    /// Whether the data of such a record is an IP address.
    pub open spec fn is_address(self) -> bool {
        self == RecordType::A || self == RecordType::AAAA
    }

    /// Whether the data of such a record is one domain name.
    pub open spec fn is_name(self) -> bool {
        self == RecordType::ANAME || self == RecordType::CNAME || self == RecordType::NS || self
            == RecordType::PTR
    }

    /// The name of the record type, as the protocol crate writes it.
    pub fn name(&self) -> (out: String)
        ensures
            out@ == record_type_text(*self),
    {
        record_type_to_string(*self)
    }

    /// Reads a record type from its name. A token with a character that is
    /// no ASCII letter or digit names no type.
    pub fn parse(token: &str) -> (out: Option<RecordType>)
        ensures
            out == record_type_of(token@),
    {
        let chars = chars_of(token);
        let mut i: usize = 0;
        while i < chars.len()
            invariant
                0 <= i <= chars.len(),
                chars@ == token@,
                forall|k: int| 0 <= k < i ==> is_alphanumeric(#[trigger] chars@[k]),
            decreases chars.len() - i,
        {
            let x = chars[i] as u32;
            if !((48 <= x && x <= 57) || (65 <= x && x <= 90) || (97 <= x && x <= 122)) {
                return None;
            }
            i += 1;
        }
        match record_type_from_str(token) {
            Ok(t) => Some(t),
            Err(_) => None,
        }
    }
}

} // verus!
