use vstd::prelude::*;
use crate::diagram::Entity;

verus! {

/// The most entries that a pool takes: with this many, `insert` would find the pool full.
pub const POOL_LIMIT: usize = 0xFFFF_FFFE;

/// The key that a pool reads out of a raw key: the lowest bit of the version, which is the
/// upper half, is set.
pub open spec fn slot_key(raw: u64) -> u64 {
    raw | 0x1_0000_0000
}

/// The slot that a raw key names: its lower half.
pub open spec fn slot_index(raw: u64) -> u64 {
    raw & 0xFFFF_FFFF
}

/// A pool of entities with stable keys: a `slotmap::SlotMap` with the default key type. A
/// key is handed about as the 64-bit number that `KeyData::as_ffi` makes of it.
#[verifier::external_body]
pub struct Pool {
    slots: slotmap::SlotMap<slotmap::DefaultKey, Entity>,
}

/// What a pool holds: its entries, each under its raw key.
pub uninterp spec fn pool_entries(pool: Pool) -> Map<u64, Entity>;

/// The raw keys of a pool's entries in the order in which the pool walks them.
pub uninterp spec fn pool_key_order(pool: Pool) -> Seq<u64>;

/// `SlotMap::new`: a pool without entries.
#[verifier::external_body]
pub(crate) fn pool_new() -> (pool: Pool)
    ensures
        (pool_entries(pool) == Map::<u64, Entity>::empty()),
{
    Pool { slots: slotmap::SlotMap::new() }
}

/// `SlotMap::len`: the number of entries.
#[verifier::external_body]
pub(crate) fn pool_len(pool: &Pool) -> (len: usize)
    requires
        pool_entries(*pool).dom().finite(),
    ensures
        len == pool_entries(*pool).dom().len(),
{
    pool.slots.len()
}

/// `SlotMap::insert`: the value is entered under a key that named no entry before, and
/// whose version is odd. The call panics on a full pool, which `requires` leaves out.
#[verifier::external_body]
pub(crate) fn pool_insert(pool: &mut Pool, value: Entity) -> (raw: u64)
    requires
        pool_entries(*old(pool)).dom().finite(),
        pool_entries(*old(pool)).dom().len() < POOL_LIMIT,
    ensures
        !pool_entries(*old(pool)).contains_key(raw),
        slot_key(raw) == raw,
        pool_entries(*final(pool)) == pool_entries(*old(pool)).insert(raw, value),
{
    slotmap::Key::data(&pool.slots.insert(value)).as_ffi()
}

/// `SlotMap::get` on the key that `KeyData::from_ffi` makes of `raw`: the entry under that
/// key, if there is one.
#[verifier::external_body]
pub(crate) fn pool_get(pool: &Pool, raw: u64) -> (value: Option<Entity>)
    ensures
        value == (if pool_entries(*pool).contains_key(slot_key(raw)) {
            Some(pool_entries(*pool)[slot_key(raw)])
        } else {
            None
        }),
{
    pool.slots.get(slotmap::KeyData::from_ffi(raw).into()).copied()
}

/// `SlotMap::index_mut`, assigned to: the entry under the key is replaced, and the pool
/// walks its keys as before. The call panics where the key names no entry, which
/// `requires` leaves out.
#[verifier::external_body]
pub(crate) fn pool_set(pool: &mut Pool, raw: u64, value: Entity)
    requires
        pool_entries(*old(pool)).contains_key(slot_key(raw)),
    ensures
        pool_entries(*final(pool)) == pool_entries(*old(pool)).insert(slot_key(raw), value),
        pool_key_order(*final(pool)) == pool_key_order(*old(pool)),
{
    pool.slots[slotmap::KeyData::from_ffi(raw).into()] = value;
}

/// `SlotMap::remove`: the entry under the key leaves the pool and is returned, if there is
/// one.
#[verifier::external_body]
pub(crate) fn pool_remove(pool: &mut Pool, raw: u64) -> (value: Option<Entity>)
    ensures
        value == (if pool_entries(*old(pool)).contains_key(slot_key(raw)) {
            Some(pool_entries(*old(pool))[slot_key(raw)])
        } else {
            None
        }),
        pool_entries(*final(pool)) == pool_entries(*old(pool)).remove(slot_key(raw)),
{
    pool.slots.remove(slotmap::KeyData::from_ffi(raw).into())
}

/// `SlotMap::keys`, collected: the key of each entry once, by ascending slot.
#[verifier::external_body]
pub(crate) fn pool_keys(pool: &Pool) -> (keys: Vec<u64>)
    ensures
        keys@ == pool_key_order(*pool),
        keys@.no_duplicates(),
        forall|raw: u64| keys@.contains(raw) <==> pool_entries(*pool).contains_key(raw),
        forall|i: int, j: int|
            0 <= i < j < keys@.len() ==> slot_index(#[trigger] keys@[i]) < slot_index(
                #[trigger] keys@[j],
            ),
{
    pool.slots.keys().map(|key| slotmap::Key::data(&key).as_ffi()).collect()
}

} // verus!
