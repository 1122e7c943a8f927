//! A compact map shell with 16-bit bookkeeping, for tables that never grow
//! past a few thousand entries and are counted in bytes.

use vstd::prelude::*;

verus! {

/// A map shell whose size and capacity fit in 16 bits. The four bytes the
/// alignment would waste anyway are exposed as a free scratch field.
#[derive(Debug)]
pub struct SmallerHashMap<K, V> {
    pub data: Vec<V>,
    pub size: u16,
    pub capacity: u16,
    pub padding: i32,
    pub keys: core::marker::PhantomData<K>,
}

impl<K, V> SmallerHashMap<K, V> {
    /// An empty map with no storage reserved.
    pub fn new() -> (r: SmallerHashMap<K, V>)
        ensures
            r.capacity == 0,
            r.size == 0,
            r.padding == 0,
    {
        SmallerHashMap {
            data: Vec::new(),
            size: 0,
            capacity: 0,
            padding: 0,
            keys: core::marker::PhantomData,
        }
    }

    /// An empty map with storage reserved for `capacity` values.
    pub fn with_capacity(capacity: u16) -> (r: SmallerHashMap<K, V>)
        ensures
            r.capacity == capacity,
            r.size == 0,
            r.padding == 0,
    {
        SmallerHashMap {
            data: Vec::with_capacity(capacity as usize),
            size: 0,
            capacity: capacity,
            padding: 0,
            keys: core::marker::PhantomData,
        }
    }

    /// The number of values the map can hold without growing its storage.
    pub fn capacity(&self) -> (r: u16)
        ensures
            r == self.capacity,
    {
        self.capacity
    }

    /// The scratch field. The map itself never reads it; it only keeps
    /// those four bytes of padding from going to waste.
    pub fn get_padding(&self) -> (r: i32)
        ensures
            r == self.padding,
    {
        self.padding
    }

    /// Stores a value in the scratch field.
    pub fn set_padding(&mut self, val: i32)
        ensures
            final(self).padding == val,
            final(self).capacity == old(self).capacity,
            final(self).size == old(self).size,
    {
        self.padding = val;
    }
}

} // verus!
