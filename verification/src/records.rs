//! The canonical authoritative record and the capability contracts that a
//! provider-native record type must satisfy to take part in diffing.
//!
//! Every record type carries a mathematical view; the capability contracts
//! and the diff engine's specifications are stated over those views.

use vstd::prelude::*;
use crate::text::{eq_ignore_case, str_eq_ignore_ascii_case};

verus! {

/// The mathematical view of an authoritative record.
pub struct RecordV {
    pub name: Seq<char>,
    pub kind: Seq<char>,
    pub content: Seq<char>,
    pub source: Seq<char>,
}

/// An authoritative DNS record, rebuilt from the backends on every sync pass.
#[derive(Debug)]
pub struct Record {
    /// Fully qualified domain name the record points from.
    pub name: String,
    /// Record type, e.g. `A` or `AAAA`.
    pub kind: String,
    /// Record value, e.g. an IP address.
    pub content: String,
    /// Identifier of the backend this record came from.
    pub source: String,
}

impl View for Record {
    type V = RecordV;

    open spec fn view(&self) -> RecordV {
        RecordV {
            name: self.name@,
            kind: self.kind@,
            content: self.content@,
            source: self.source@,
        }
    }
}

impl RecordV {
    /// Two records denote the same slot when their name and kind are equal,
    /// ignoring ASCII case; content plays no part in slot identity.
    pub open spec fn slot_eq(self, other: RecordV) -> bool {
        eq_ignore_case(self.kind, other.kind) && eq_ignore_case(self.name, other.name)
    }
}


impl Clone for Record {
    fn clone(&self) -> (r: Self)
        ensures
            r == *self,
    {
        Record {
            name: self.name.clone(),
            kind: self.kind.clone(),
            content: self.content.clone(),
            source: self.source.clone(),
        }
    }
}

/// The views of the elements of a sequence.
pub open spec fn views<T: View>(s: Seq<T>) -> Seq<T::V> {
    s.map_values(|t: T| t@)
}

/// The `A` record type for IPv4 addresses.
pub fn record_kind_a() -> (r: &'static str)
    ensures
        r@ == "A"@,
{
    "A"
}

/// The `AAAA` record type for IPv6 addresses.
pub fn record_kind_aaaa() -> (r: &'static str)
    ensures
        r@ == "AAAA"@,
{
    "AAAA"
}

/// Slot identity: two provider-native records denote the same record slot.
pub trait Match: View + Sized {
    /// The slot relation, as a specification over views.
    spec fn match_v(x: Self::V, y: Self::V) -> bool;

    /// Whether two records are of the same slot; content is not compared.
    fn matches(&self, other: &Self) -> (r: bool)
        ensures
            r == Self::match_v(self@, other@),
    ;
}

impl Match for Record {
    /// Two records denote the same slot when their name and kind are equal,
    /// ignoring ASCII case; content plays no part in slot identity.
    open spec fn match_v(x: RecordV, y: RecordV) -> bool {
        x.slot_eq(y)
    }

    fn matches(&self, other: &Record) -> (r: bool) {
        str_eq_ignore_ascii_case(self.kind.as_str(), other.kind.as_str())
            && str_eq_ignore_ascii_case(self.name.as_str(), other.name.as_str())
    }
}

/// Ownership: whether a provider-native record carries this tool's watermark.
pub trait Manage: View + Sized {
    /// The ownership predicate, as a specification over views.
    spec fn managed_v(x: Self::V) -> bool;

    /// Whether this remote record is managed by this tool.
    fn is_managed(&self) -> (r: bool)
        ensures
            r == Self::managed_v(self@),
    ;
}

/// Content replacement: a copy with the content of an authoritative record
/// and all identity fields preserved.
pub trait Update: View + Sized {
    /// The updated record, as a specification over views.
    spec fn update_v(x: Self::V, a: RecordV) -> Self::V;

    /// A copy of `self` whose content is taken from `authority`; identity
    /// fields (provider id, metadata) are preserved.
    fn update(self, authority: Record) -> (r: Self)
        ensures
            r@ == Self::update_v(self@, authority@),
    ;
}

/// Everything the diff engine needs of a provider-native record type:
/// slot identity, ownership, update, conversion from an authoritative
/// record, value equality and duplication.
pub trait Diffable: Match + Manage + Update {
    /// The provider-native shape of an authoritative record, stamped with
    /// the ownership watermark as if newly created.
    spec fn conv_v(a: RecordV) -> Self::V;

    /// Converts an authoritative record to its provider-native shape.
    fn from_record(r: Record) -> (s: Self)
        ensures
            s@ == Self::conv_v(r@),
    ;

    /// Value equality, as a specification over views: same slot and same
    /// content.
    spec fn same_value_v(x: Self::V, y: Self::V) -> bool;

    /// Whether two records are equal by the value-equality contract
    /// (kind, name and content, case-insensitive on kind and name).
    fn same_value(&self, other: &Self) -> (r: bool)
        ensures
            r == Self::same_value_v(self@, other@),
    ;

    /// An exact copy of this record.
    fn duplicate(&self) -> (r: Self)
        ensures
            r@ == self@,
    ;
}

} // verus!
