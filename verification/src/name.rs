//! Domain names: labels, the fully-qualified mark, comparison without
//! regard to case, and the wire form.

use std::str::FromStr;
use trust_dns_proto::error::ProtoError;
use trust_dns_proto::rr::Name;
use vstd::prelude::*;

verus! {

/// The error type of the DNS protocol crate.
#[verifier::external_type_specification]
#[verifier::external_body]
pub struct ExProtoError(ProtoError);

/// The longest label that a name can hold, in octets.
pub const MAX_LABEL: usize = 63;

/// What two names are compared by: the labels in lower case and the
/// fully-qualified mark.
#[verifier::ext_equal]
pub struct NameKey {
    pub labels: Seq<Seq<u8>>,
    pub fqdn: bool,
}

/// A domain name: its labels from the host end to the root end, and
/// whether it is fully qualified (written with a final dot).
#[derive(Debug)]
pub struct DomainName {
    labels: Vec<Vec<u8>>,
    fqdn: bool,
}

/// The lower-case form of an ASCII letter; any other octet unchanged.
pub open spec fn lower(b: u8) -> u8 {
    if 65 <= b <= 90 {
        (b + 32) as u8
    } else {
        b
    }
}

/// A label with each octet in lower case.
pub open spec fn lower_label(label: Seq<u8>) -> Seq<u8> {
    Seq::new(label.len(), |i: int| lower(label[i]))
}

/// Labels with each octet in lower case.
pub open spec fn lower_labels(labels: Seq<Seq<u8>>) -> Seq<Seq<u8>> {
    Seq::new(labels.len(), |i: int| lower_label(labels[i]))
}

/// The octet sequences that a vector of octet vectors stands for.
pub open spec fn label_views(labels: Seq<Vec<u8>>) -> Seq<Seq<u8>> {
    Seq::new(labels.len(), |i: int| labels[i]@)
}

/// Whether each label fits the length octet of the wire form.
pub open spec fn labels_fit(labels: Seq<Seq<u8>>) -> bool {
    forall|i: int| 0 <= i < labels.len() ==> (#[trigger] labels[i]).len() <= MAX_LABEL
}

/// The wire form of labels in lower case: each label behind its length
/// octet, then a zero octet.
pub open spec fn wire_form(labels: Seq<Seq<u8>>) -> Seq<u8>
    decreases labels.len(),
{
    if labels.len() == 0 {
        seq![0u8]
    } else {
        seq![labels[0].len() as u8] + lower_label(labels[0]) + wire_form(labels.drop_first())
    }
}

/// What the protocol crate reads from the text of a name: the labels and
/// the fully-qualified mark, or nothing where it refuses the text.
pub uninterp spec fn parsed_name(text: Seq<char>) -> Option<(Seq<Seq<u8>>, bool)>;

/// The labels and the fully-qualified mark of the name that `text` writes:
/// what the protocol crate reads from it, where each label has at most 63
/// octets.
pub open spec fn name_of(text: Seq<char>) -> Option<(Seq<Seq<u8>>, bool)> {
    match parsed_name(text) {
        Some(parts) => if labels_fit(parts.0) {
            Some(parts)
        } else {
            None
        },
        None => None,
    }
}

/// The text that the protocol crate writes for a name of the given labels
/// and fully-qualified mark, or nothing where it refuses the labels.
pub uninterp spec fn name_text(labels: Seq<Seq<u8>>, fqdn: bool) -> Option<Seq<char>>;

/// `Name::from_str` of trust-dns-proto, with the name it reads handed back
/// as its labels and its fully-qualified mark. The result is the parse of
/// the text and depends on nothing else.
#[verifier::external_body]
fn name_from_str(text: &str) -> (out: Result<(Vec<Vec<u8>>, bool), ProtoError>)
    ensures
        match out {
            Ok(parts) => parsed_name(text@) == Some((label_views(parts.0@), parts.1)),
            Err(_) => parsed_name(text@) is None,
        },
{
    Name::from_str(text).map(|name| (name.iter().map(|label| label.to_vec()).collect(), name.is_fqdn()))
}

/// `Name::to_utf8` of trust-dns-proto, on the name that `Name::from_labels`
/// and `Name::set_fqdn` build from the given labels and mark. Nothing comes
/// back where `from_labels` refuses the labels.
#[verifier::external_body]
fn name_to_utf8(labels: &Vec<Vec<u8>>, fqdn: bool) -> (out: Option<String>)
    ensures
        match out {
            Some(text) => name_text(label_views(labels@), fqdn) == Some(text@),
            None => name_text(label_views(labels@), fqdn) is None,
        },
{
    let mut name = Name::from_labels(labels.iter().map(|label| label.as_slice())).ok()?;
    name.set_fqdn(fqdn);
    Some(name.to_utf8())
}

/// The lower-case form of an ASCII letter; any other octet unchanged.
pub fn to_lower(b: u8) -> (out: u8)
    ensures
        out == lower(b),
{
    if 65 <= b && b <= 90 {
        b + 32
    } else {
        b
    }
}

/// Whether two labels are equal without regard to ASCII case.
fn same_label(a: &Vec<u8>, b: &Vec<u8>) -> (r: bool)
    ensures
        r == (lower_label(a@) == lower_label(b@)),
{
    if a.len() != b.len() {
        proof {
            assert(lower_label(a@).len() != lower_label(b@).len());
        }
        return false;
    }
    let mut i: usize = 0;
    while i < a.len()
        invariant
            0 <= i <= a.len(),
            a.len() == b.len(),
            forall|k: int| 0 <= k < i ==> lower(a@[k]) == lower(b@[k]),
        decreases a.len() - i,
    {
        if to_lower(a[i]) != to_lower(b[i]) {
            proof {
                assert(lower_label(a@)[i as int] != lower_label(b@)[i as int]);
            }
            return false;
        }
        i += 1;
    }
    proof {
        assert(lower_label(a@) =~= lower_label(b@));
    }
    true
}

impl View for DomainName {
    type V = NameKey;

    /// The labels as they are held and the fully-qualified mark.
    closed spec fn view(&self) -> NameKey {
        NameKey { labels: label_views(self.labels@), fqdn: self.fqdn }
    }
}

impl Clone for DomainName {
    fn clone(&self) -> (out: DomainName)
        ensures
            out@ == self@,
    {
        self.duplicate()
    }
}

impl DomainName {
    #[verifier::type_invariant]
    spec fn well_formed(self) -> bool {
        labels_fit(label_views(self.labels@))
    }

    /// What the name is compared by: see [`NameKey`].
    pub open spec fn key(self) -> NameKey {
        NameKey { labels: lower_labels(self@.labels), fqdn: self@.fqdn }
    }

    /// The name of the given labels, where each has at most 63 octets.
    pub fn from_labels(labels: Vec<Vec<u8>>, fqdn: bool) -> (out: Option<DomainName>)
        ensures
            labels_fit(label_views(labels@)) ==> out is Some,
            out matches Some(name) ==> name@ == (NameKey {
                labels: label_views(labels@),
                fqdn,
            }) && labels_fit(label_views(labels@)),
    {
        let mut i: usize = 0;
        while i < labels.len()
            invariant
                0 <= i <= labels.len(),
                forall|k: int| 0 <= k < i ==> (#[trigger] label_views(labels@)[k]).len() <= MAX_LABEL,
            decreases labels.len() - i,
        {
            if labels[i].len() > MAX_LABEL {
                proof {
                    assert(label_views(labels@)[i as int].len() > MAX_LABEL);
                }
                return None;
            }
            i += 1;
        }
        Some(DomainName { labels, fqdn })
    }

    /// Reads a name from its text. It succeeds where the protocol crate
    /// reads the text as a name whose labels have at most 63 octets each.
    pub fn parse(text: &str) -> (out: Option<DomainName>)
        ensures
            match out {
                Some(name) => name_of(text@) == Some((name@.labels, name@.fqdn)),
                None => name_of(text@) is None,
            },
    {
        match name_from_str(text) {
            Ok(parts) => DomainName::from_labels(parts.0, parts.1),
            Err(_) => None,
        }
    }

    /// The labels, from the host end to the root end.
    pub fn labels(&self) -> (out: &Vec<Vec<u8>>)
        ensures
            label_views(out@) == self@.labels,
            labels_fit(self@.labels),
    {
        proof {
            use_type_invariant(self);
        }
        &self.labels
    }

    /// Whether the name is fully qualified.
    pub fn is_fqdn(&self) -> (out: bool)
        ensures
            out == self@.fqdn,
    {
        self.fqdn
    }

    /// The same labels with the fully-qualified mark set to `val`.
    pub fn with_fqdn(self, val: bool) -> (out: DomainName)
        ensures
            out@ == (NameKey { labels: self@.labels, fqdn: val }),
    {
        proof {
            use_type_invariant(&self);
        }
        DomainName { labels: self.labels, fqdn: val }
    }

    /// A copy of the name.
    pub fn duplicate(&self) -> (out: DomainName)
        ensures
            out@ == self@,
    {
        proof {
            use_type_invariant(self);
        }
        let mut labels: Vec<Vec<u8>> = Vec::new();
        let mut i: usize = 0;
        while i < self.labels.len()
            invariant
                0 <= i <= self.labels.len(),
                labels@.len() == i,
                forall|k: int| 0 <= k < i ==> (#[trigger] labels@[k])@ == self.labels@[k]@,
            decreases self.labels.len() - i,
        {
            let label = self.labels[i].clone();
            labels.push(label);
            i += 1;
        }
        proof {
            assert(label_views(labels@) =~= label_views(self.labels@));
        }
        DomainName { labels, fqdn: self.fqdn }
    }

    /// Whether two names have the same key: the same labels without regard
    /// to ASCII case, and the same fully-qualified mark.
    pub fn same_name(&self, other: &DomainName) -> (r: bool)
        ensures
            r == (self.key() == other.key()),
    {
        if self.fqdn != other.fqdn {
            return false;
        }
        if self.labels.len() != other.labels.len() {
            proof {
                assert(self.key().labels.len() != other.key().labels.len());
            }
            return false;
        }
        let mut i: usize = 0;
        while i < self.labels.len()
            invariant
                0 <= i <= self.labels.len(),
                self.labels.len() == other.labels.len(),
                forall|k: int|
                    0 <= k < i ==> lower_label(#[trigger] self.labels@[k]@) == lower_label(
                        other.labels@[k]@,
                    ),
            decreases self.labels.len() - i,
        {
            if !same_label(&self.labels[i], &other.labels[i]) {
                proof {
                    assert(self.key().labels[i as int] == lower_label(self.labels@[i as int]@));
                    assert(other.key().labels[i as int] == lower_label(
                        other.labels@[i as int]@,
                    ));
                }
                return false;
            }
            i += 1;
        }
        proof {
            assert(self.key().labels =~= other.key().labels);
        }
        true
    }

    /// The wire form of the name in lower case.
    pub fn wire(&self) -> (out: Vec<u8>)
        ensures
            out@ == wire_form(self@.labels),
    {
        proof {
            use_type_invariant(self);
        }
        let n = self.labels.len();
        let ghost all = label_views(self.labels@);
        let mut out: Vec<u8> = Vec::new();
        let mut i: usize = 0;
        proof {
            assert(all.skip(0) == all);
            assert(out@ + wire_form(all) == wire_form(all));
        }
        while i < n
            invariant
                0 <= i <= n,
                n == self.labels.len(),
                all == label_views(self.labels@),
                labels_fit(all),
                out@ + wire_form(all.skip(i as int)) == wire_form(all),
            decreases n - i,
        {
            let label = &self.labels[i];
            let ghost rest = all.skip(i as int);
            proof {
                assert(rest[0] == label@);
                assert(rest.drop_first() == all.skip(i + 1));
                assert(all[i as int].len() <= MAX_LABEL);
            }
            let ghost before = out@;
            out.push(label.len() as u8);
            let mut j: usize = 0;
            while j < label.len()
                invariant
                    0 <= j <= label.len() <= MAX_LABEL,
                    out@ == before.push(label@.len() as u8) + lower_label(label@).take(j as int),
                decreases label.len() - j,
            {
                out.push(to_lower(label[j]));
                j += 1;
            }
            proof {
                assert(lower_label(label@).take(label.len() as int) == lower_label(label@));
                assert(out@ + wire_form(all.skip(i + 1)) =~= before + wire_form(rest));
            }
            i += 1;
        }
        out.push(0u8);
        proof {
            assert(all.skip(n as int).len() == 0);
            assert(out@ =~= wire_form(all));
        }
        out
    }

    /// The text of the name as the protocol crate writes it, or nothing
    /// where it refuses the labels.
    pub fn to_utf8(&self) -> (out: Option<String>)
        ensures
            match out {
                Some(text) => name_text(self@.labels, self@.fqdn) == Some(text@),
                None => name_text(self@.labels, self@.fqdn) is None,
            },
    {
        name_to_utf8(&self.labels, self.fqdn)
    }
}

} // verus!
