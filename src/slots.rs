//! The slot-keyed map that holds the selection records: slotmap's
//! `SecondaryMap`, used with keys of version 1 made from a node's index.

use crate::selection::SelectionInfo;
use slotmap::{DefaultKey, KeyData, SecondaryMap};
use vstd::prelude::*;

verus! {

/// The map of selection records, keyed by slot. slotmap's `SecondaryMap`
/// cannot be declared to Verus (its key bound is an outside trait), so it is
/// held here out of Verus's sight; `slots_of` names what it holds.
#[verifier::external_body]
pub struct Records {
    map: SecondaryMap<DefaultKey, SelectionInfo>,
}

/// What a record map holds: for each occupied slot, its index, the version
/// stored with it, and its value.
pub uninterp spec fn slots_of(m: Records) -> Map<u32, (u32, SelectionInfo)>;

/// The key bits of version 1 at slot `idx`, as `KeyData::as_ffi` writes them.
pub open spec fn key_bits(idx: u32) -> u64 {
    (0x1_0000_0000 + idx) as u64
}

/// The slot that the key bits `k` of version 1 name.
pub open spec fn slot_of_key(k: u64) -> u32 {
    (k - 0x1_0000_0000) as u32
}

pub open spec fn is_key_bits(k: u64) -> bool {
    0x1_0000_0000 <= k < 0x2_0000_0000
}

/// slotmap's wrap-around order on versions: `a` is older than `b`.
pub open spec fn older_version(a: u32, b: u32) -> bool {
    (a as int - b as int) % 0x1_0000_0000 >= 0x8000_0000
}

/// Relies on SecondaryMap::new: the map starts with no occupied slot.
#[verifier::external_body]
pub fn records_new() -> (r: Records)
    ensures
        slots_of(r).dom() == Set::<u32>::empty(),
{
    Records { map: SecondaryMap::new() }
}

/// Relies on SecondaryMap::get: a value comes back only where the slot is
/// occupied with the key's version; KeyData::from_ffi turns the bits back
/// into the key of version 1 at slot `slot_of_key(k)`.
#[verifier::external_body]
pub fn records_get(m: &Records, k: u64) -> (r: Option<
    SelectionInfo,
>)
    requires
        is_key_bits(k),
    ensures
        r == (if slots_of(*m).contains_key(slot_of_key(k)) && slots_of(*m)[slot_of_key(k)].0
            == 1 {
            Some(slots_of(*m)[slot_of_key(k)].1)
        } else {
            None
        }),
{
    m.map.get(DefaultKey::from(KeyData::from_ffi(k))).copied()
}

/// Relies on SecondaryMap::insert: the null slot (index `u32::MAX`) is never
/// filled; a slot that holds the same version has its value replaced and the
/// old one returned; a slot that holds a newer version is left as it is;
/// otherwise the slot takes the key's version and the value.
#[verifier::external_body]
pub fn records_insert(m: &mut Records, k: u64, v: SelectionInfo) -> (r:
    Option<SelectionInfo>)
    requires
        is_key_bits(k),
    ensures
        ({
            let s = slots_of(*old(m));
            let i = slot_of_key(k);
            if i == u32::MAX {
                r is None && slots_of(*final(m)) == s
            } else if s.contains_key(i) && s[i].0 == 1 {
                r == Some(s[i].1) && slots_of(*final(m)) == s.insert(i, (1u32, v))
            } else if s.contains_key(i) && older_version(1, s[i].0) {
                r is None && slots_of(*final(m)) == s
            } else {
                r is None && slots_of(*final(m)) == s.insert(i, (1u32, v))
            }
        }),
{
    m.map.insert(DefaultKey::from(KeyData::from_ffi(k)), v)
}

/// Relies on SecondaryMap::remove: a slot occupied with the key's version is
/// emptied and its value returned; otherwise nothing changes.
#[verifier::external_body]
pub fn records_remove(m: &mut Records, k: u64) -> (r: Option<
    SelectionInfo,
>)
    requires
        is_key_bits(k),
    ensures
        ({
            let s = slots_of(*old(m));
            let i = slot_of_key(k);
            if s.contains_key(i) && s[i].0 == 1 {
                r == Some(s[i].1) && slots_of(*final(m)) == s.remove(i)
            } else {
                r is None && slots_of(*final(m)) == s
            }
        }),
{
    m.map.remove(DefaultKey::from(KeyData::from_ffi(k)))
}

} // verus!
