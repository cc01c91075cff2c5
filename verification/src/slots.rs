//! Arenas with stable keys, built on slot maps.

use slotmap::{DefaultKey, Key, KeyData, SecondaryMap, SlotMap};
use vstd::prelude::*;

verus! {

/// The key of the first value put into an arena.
pub const FIRST_KEY: u64 = 0x1_0000_0001;

/// The most values that an arena can hold.
pub const MAX_SLOTS: usize = 0xffff_fffe;

/// The key that no value ever has.
pub const NULL_KEY: u64 = 0x1_ffff_ffff;

/// A slot map whose values are positions.
#[verifier::external_body]
pub struct SlotIndex {
    map: SlotMap<DefaultKey, usize>,
}

/// The slots of a slot map after its sentinel, in the order of their indices:
/// the version and the value of each occupied slot, `None` for a vacant one.
pub uninterp spec fn slot_table(index: SlotIndex) -> Seq<Option<(u32, usize)>>;

/// `SlotMap::new`: a new slot map has no slot besides its sentinel.
#[verifier::external_body]
fn slot_map_new() -> (index: SlotIndex)
    ensures
        slot_table(index) == Seq::<Option<(u32, usize)>>::empty(),
{
    SlotIndex { map: SlotMap::new() }
}

/// `SlotMap::insert`: where no slot is vacant the value gets a new slot behind
/// the others, of version 1, and `KeyData::as_ffi` of the key holds the version
/// above the slot's index. An insertion that needs a new slot panics once the
/// indices are used up.
#[verifier::external_body]
fn slot_map_insert(index: &mut SlotIndex, value: usize) -> (key: u64)
    requires
        slot_table(*old(index)).len() < MAX_SLOTS,
        forall|i: int| 0 <= i < slot_table(*old(index)).len() ==> slot_table(*old(index))[i] is Some,
    ensures
        key == FIRST_KEY + slot_table(*old(index)).len(),
        slot_table(*final(index)) == slot_table(*old(index)).push(Some((1u32, value))),
{
    index.map.insert(value).data().as_ffi()
}

/// `SlotMap::get`: of a key of version 1 (`KeyData::from_ffi` reads the version
/// from above the index), the value in the slot of that index, if the slot is
/// occupied in that version.
#[verifier::external_body]
fn slot_map_get(index: &SlotIndex, key: u64) -> (value: Option<usize>)
    requires
        FIRST_KEY <= key < NULL_KEY,
    ensures
        value == (if key - FIRST_KEY < slot_table(*index).len() {
            match slot_table(*index)[key - FIRST_KEY] {
                Some((version, held)) => if version == 1 {
                    Some(held)
                } else {
                    None
                },
                None => None,
            }
        } else {
            None
        }),
{
    index.map.get(DefaultKey::from(KeyData::from_ffi(key))).copied()
}

/// `Key::null`, read by `KeyData::as_ffi`: the null key has the highest index, and
/// version 1.
#[verifier::external_body]
fn slot_key_null() -> (key: u64)
    ensures
        key == NULL_KEY,
{
    DefaultKey::null().data().as_ffi()
}

/// `Key::is_null`: the null key is known by its index.
#[verifier::external_body]
fn slot_key_is_null(key: u64) -> (null: bool)
    ensures
        null == (key % 0x1_0000_0000 == 0xffff_ffff),
{
    DefaultKey::from(KeyData::from_ffi(key)).is_null()
}

/// The key that a number from outside stands for: its upper half is the version,
/// which is made odd.
pub open spec fn ffi_key(value: u64) -> u64 {
    if (value / 0x1_0000_0000) % 2 == 1 {
        value
    } else {
        (value + 0x1_0000_0000) as u64
    }
}

/// `KeyData::from_ffi`, read back by `KeyData::as_ffi`: the version is the upper
/// half of the number with its lowest bit set, the index is the lower half.
#[verifier::external_body]
fn slot_key_from_ffi(value: u64) -> (key: u64)
    ensures
        key == ffi_key(value),
{
    KeyData::from_ffi(value).as_ffi()
}

/// The key that a number from outside stands for.
pub fn key_from_ffi(value: u64) -> (key: u64)
    ensures
        key == ffi_key(value),
{
    slot_key_from_ffi(value)
}

/// A key that an arena gave stands for itself.
pub proof fn law_ffi_key(n: int)
    requires
        0 <= n < MAX_SLOTS,
    ensures
        ffi_key(key_at(n)) == key_at(n),
{
}

/// The key that no value has.
pub fn null_key() -> (key: u64)
    ensures
        key == NULL_KEY,
{
    slot_key_null()
}

/// Whether `key` is a key that no value has because it was never given one.
pub fn is_null_key(key: u64) -> (null: bool)
    ensures
        null == (key % 0x1_0000_0000 == 0xffff_ffff),
{
    slot_key_is_null(key)
}

/// Values under keys that never change. The key of a value is fixed by the
/// number of values that were there before it.
pub struct Arena<T> {
    slots: SlotIndex,
    items: Vec<T>,
}

/// The key of the value at position `n` of an arena.
pub open spec fn key_at(n: int) -> u64 {
    (FIRST_KEY + n) as u64
}

/// The position that a key stands for.
pub open spec fn key_pos(key: u64) -> int {
    key - FIRST_KEY
}

impl<T> Arena<T> {
    /// The values, in the order in which they were put in.
    pub closed spec fn view(&self) -> Seq<T> {
        self.items@
    }

    /// The slot map leads from the key of each value to its position.
    pub closed spec fn wf(&self) -> bool {
        &&& self.items@.len() <= MAX_SLOTS
        &&& slot_table(self.slots) =~= Seq::new(
            self.items@.len(),
            |i: int| Some((1u32, i as usize)),
        )
    }

    /// Whether `key` is the key of a value.
    pub open spec fn contains(&self, key: u64) -> bool {
        0 <= key_pos(key) < self@.len()
    }

    /// The value under `key`.
    pub open spec fn at(&self, key: u64) -> T {
        self@[key_pos(key)]
    }

    pub proof fn lemma_len(&self)
        requires
            self.wf(),
        ensures
            self@.len() <= MAX_SLOTS,
    {
    }

    /// An arena without values.
    pub fn new() -> (arena: Self)
        ensures
            arena.wf(),
            arena@ == Seq::<T>::empty(),
    {
        Arena { slots: slot_map_new(), items: Vec::new() }
    }

    pub fn len(&self) -> (n: usize)
        requires
            self.wf(),
        ensures
            n == self@.len(),
            n <= MAX_SLOTS,
    {
        self.items.len()
    }

    /// Puts a value in and gives its key.
    pub fn insert(&mut self, value: T) -> (key: u64)
        requires
            old(self).wf(),
            old(self)@.len() < MAX_SLOTS,
        ensures
            final(self).wf(),
            key == key_at(old(self)@.len() as int),
            key_pos(key) == old(self)@.len(),
            final(self)@ == old(self)@.push(value),
    {
        let n: usize = self.items.len();
        let key = slot_map_insert(&mut self.slots, n);
        self.items.push(value);
        key
    }

    /// The value under `key`, if there is one.
    pub fn get(&self, key: u64) -> (value: Option<&T>)
        requires
            self.wf(),
        ensures
            value == (if self.contains(key) {
                Some(&self.at(key))
            } else {
                None
            }),
    {
        match self.position(key) {
            Some(n) => Some(&self.items[n]),
            None => None,
        }
    }

    /// The position of the value under `key`, if there is one.
    pub fn position(&self, key: u64) -> (at: Option<usize>)
        requires
            self.wf(),
        ensures
            at is Some <==> self.contains(key),
            at matches Some(n) ==> n == key_pos(key),
    {
        if key < FIRST_KEY || key >= NULL_KEY {
            return None;
        }
        slot_map_get(&self.slots, key)
    }

    /// The key of the value at position `n`.
    pub fn key_of(&self, n: usize) -> (key: u64)
        requires
            self.wf(),
            n < self@.len(),
        ensures
            key == key_at(n as int),
            key_pos(key) == n,
    {
        FIRST_KEY + n as u64
    }

    /// Puts `value` in the place of the one under `key`, and gives that one.
    pub fn replace(&mut self, key: u64, value: T) -> (before: T)
        requires
            old(self).wf(),
            old(self).contains(key),
        ensures
            final(self).wf(),
            before == old(self).at(key),
            final(self)@ == old(self)@.update(key_pos(key), value),
    {
        let mut value = value;
        if let Some(n) = self.position(key) {
            std::mem::swap(&mut self.items[n], &mut value);
        }
        value
    }

    /// Puts `value` in the place of the one under `key`.
    pub fn set(&mut self, key: u64, value: T)
        requires
            old(self).wf(),
            old(self).contains(key),
        ensures
            final(self).wf(),
            final(self)@ == old(self)@.update(key_pos(key), value),
    {
        let _ = self.replace(key, value);
    }
}

/// A secondary map whose values are keys.
#[verifier::external_body]
pub struct SecondaryIndex {
    map: SecondaryMap<DefaultKey, u64>,
}

/// The values of a secondary map, under their keys as `KeyData::as_ffi` gives them.
pub uninterp spec fn secondary_table(index: SecondaryIndex) -> Map<u64, u64>;

/// `SecondaryMap::new`: a new secondary map has no value.
#[verifier::external_body]
fn secondary_map_new() -> (index: SecondaryIndex)
    ensures
        secondary_table(index) == (Map::<u64, u64>::empty()),
{
    SecondaryIndex { map: SecondaryMap::new() }
}

/// `SecondaryMap::insert` of a key of version 1, where no key in the map has
/// another version: the key has that value from now on.
#[verifier::external_body]
fn secondary_map_insert(index: &mut SecondaryIndex, key: u64, value: u64)
    requires
        FIRST_KEY <= key < NULL_KEY,
        forall|k: u64| #[trigger]
            secondary_table(*old(index)).contains_key(k) ==> FIRST_KEY <= k < NULL_KEY,
    ensures
        secondary_table(*final(index)) == secondary_table(*old(index)).insert(key, value),
{
    index.map.insert(DefaultKey::from(KeyData::from_ffi(key)), value);
}

/// `SecondaryMap::get` of a key of version 1: its value, if it has one.
#[verifier::external_body]
fn secondary_map_get(index: &SecondaryIndex, key: u64) -> (value: Option<u64>)
    requires
        FIRST_KEY <= key < NULL_KEY,
    ensures
        value == (if secondary_table(*index).contains_key(key) {
            Some(secondary_table(*index)[key])
        } else {
            None
        }),
{
    index.map.get(DefaultKey::from(KeyData::from_ffi(key))).copied()
}

/// Keys for the keys of an arena.
pub struct KeyMap {
    index: SecondaryIndex,
}

impl KeyMap {
    pub closed spec fn view(&self) -> Map<u64, u64> {
        secondary_table(self.index)
    }

    /// Only keys that a value of an arena can have are in the map.
    pub closed spec fn wf(&self) -> bool {
        forall|k: u64| #[trigger]
            secondary_table(self.index).contains_key(k) ==> FIRST_KEY <= k < NULL_KEY
    }

    pub fn new() -> (map: KeyMap)
        ensures
            map.wf(),
            map@ == Map::<u64, u64>::empty(),
    {
        KeyMap { index: secondary_map_new() }
    }

    /// Gives `key` the value `value`.
    pub fn insert(&mut self, key: u64, value: u64)
        requires
            old(self).wf(),
            FIRST_KEY <= key < NULL_KEY,
        ensures
            final(self).wf(),
            final(self)@ == old(self)@.insert(key, value),
    {
        secondary_map_insert(&mut self.index, key, value);
    }

    /// The value of `key`, if it has one.
    pub fn get(&self, key: u64) -> (value: Option<u64>)
        requires
            self.wf(),
        ensures
            value == (if self@.contains_key(key) {
                Some(self@[key])
            } else {
                None
            }),
    {
        if key < FIRST_KEY || key >= NULL_KEY {
            return None;
        }
        secondary_map_get(&self.index, key)
    }
}

} // verus!
