//! The byte form of a value in a transaction's output.
use vstd::prelude::*;
use vstd::arithmetic::power::pow;
use crate::assoc::{to_map, unique_keys};

verus! {

/// The 16 little-endian bytes of `v`.
pub open spec fn le_bytes(v: u128) -> Seq<u8> {
    Seq::new(16, |i: int| ((v as int / pow(256, i as nat)) % 256) as u8)
}

/// Relies on `bcs::to_bytes`: a `u128` is written as its 16 little-endian
/// bytes into a `Vec`, a write that cannot fail.
#[verifier::external_body]
fn bcs_to_bytes_u128(v: u128) -> (r: Option<Vec<u8>>)
    ensures
        r is Some,
        r->Some_0@ == le_bytes(v),
{
    bcs::to_bytes(&v).ok()
}

/// The bytes that an output holds for the value `v`.
pub fn serialize_value(v: u128) -> (r: Vec<u8>)
    ensures
        r@ == le_bytes(v),
{
    match bcs_to_bytes_u128(v) {
        Some(b) => b,
        None => Vec::new(),
    }
}

/// The bcs form of a resource group, from tag to member bytes; `None` where
/// it cannot be serialized (more members than a bcs sequence may hold).
pub uninterp spec fn bcs_group_bytes(m: Map<u64, Seq<u8>>) -> Option<Seq<u8>>;

pub open spec fn group_entries_view(e: Seq<(u64, Vec<u8>)>) -> Map<u64, Seq<u8>> {
    to_map(e.map_values(|p: (u64, Vec<u8>)| (p.0, p.1@)))
}

/// Relies on `bcs::to_bytes` on a `BTreeMap`: the bytes depend only on the
/// map's entries (which it sorts), and it fails only on sizes past its
/// limits. The tags are distinct, so collecting them loses none.
#[verifier::external_body]
fn bcs_to_bytes_group(entries: &Vec<(u64, Vec<u8>)>) -> (r: Option<Vec<u8>>)
    requires
        unique_keys(entries@),
    ensures
        match r {
            Some(b) => bcs_group_bytes(group_entries_view(entries@)) == Some(b@),
            None => bcs_group_bytes(group_entries_view(entries@)) is None,
        },
{
    let m: std::collections::BTreeMap<u64, Vec<u8>> = entries.iter().cloned().collect();
    bcs::to_bytes(&m).ok()
}

/// The serialized form of a group with the given members.
pub fn serialize_group(entries: &Vec<(u64, Vec<u8>)>) -> (r: Option<Vec<u8>>)
    requires
        unique_keys(entries@),
    ensures
        match r {
            Some(b) => bcs_group_bytes(group_entries_view(entries@)) == Some(b@),
            None => bcs_group_bytes(group_entries_view(entries@)) is None,
        },
{
    bcs_to_bytes_group(entries)
}

} // verus!
