//! A storage device held in RAM.

use vstd::prelude::*;
use crate::storage::{write_at, ReadStorage, Storage};

verus! {

/// A storage device whose contents live in a vector of bytes.
pub struct MemoryStorage {
    internal_memory: Vec<u8>,
}

/// The error a `MemoryStorage` reports for an access past its end.
#[derive(Debug)]
pub struct MemoryError;

impl View for MemoryStorage {
    type V = Seq<u8>;

    closed spec fn view(&self) -> Seq<u8> {
        self.internal_memory@
    }
}

impl MemoryStorage {
    /// A device of `size` bytes, all zero.
    pub fn new(size: usize) -> (s: Self)
        ensures
            s@ == Seq::new(size as nat, |i: int| 0u8),
    {
        let s = MemoryStorage { internal_memory: vec![0u8; size] };
        assert(s@ =~= Seq::new(size as nat, |i: int| 0u8));
        s
    }

    /// The bytes the device holds.
    pub fn dump(&mut self) -> (r: &[u8])
        ensures
            r@ == old(self)@,
            final(self)@ == old(self)@,
    {
        self.internal_memory.as_slice()
    }

    /// Overwrites the start of the device with `payload`, as much of it as fits.
    pub fn load(&mut self, payload: &[u8])
        ensures
            final(self)@.len() == old(self)@.len(),
            ({
                let n = if payload@.len() < old(self)@.len() { payload@.len() } else { old(self)@.len() };
                final(self)@ == payload@.take(n as int) + old(self)@.skip(n as int)
            }),
    {
        let len = if payload.len() < self.internal_memory.len() {
            payload.len()
        } else {
            self.internal_memory.len()
        };
        let mut i: usize = 0;
        while i < len
            invariant
                len <= payload@.len(),
                len <= old(self)@.len(),
                i <= len,
                self.internal_memory@.len() == old(self)@.len(),
                forall|j: int| 0 <= j < i ==> self.internal_memory@[j] == payload@[j],
                forall|j: int| i <= j < old(self)@.len() ==> self.internal_memory@[j] == old(self)@[j],
            decreases len - i,
        {
            self.internal_memory.set(i, payload[i]);
            i = i + 1;
        }
        assert(self@ =~= payload@.take(len as int) + old(self)@.skip(len as int));
    }
}

impl ReadStorage for MemoryStorage {
    type Error = MemoryError;

    open spec fn contents(&self) -> Seq<u8> {
        self@
    }

    open spec fn is_reliable(&self) -> bool {
        true
    }

    fn read(&mut self, offset: u32, bytes: &mut [u8]) -> (r: Result<(), MemoryError>) {
        let start = offset as usize;
        let end = (offset + bytes.len() as u32) as usize;
        if end > self.internal_memory.len() {
            return Err(MemoryError);
        }
        let mut i: usize = start;
        while i < end
            invariant
                start == offset,
                end == offset + old(bytes)@.len(),
                end <= self.internal_memory@.len(),
                start <= i <= end,
                self.internal_memory@ == old(self)@,
                bytes@.len() == old(bytes)@.len(),
                forall|j: int| 0 <= j < i - start ==> bytes@[j] == self.internal_memory@[start + j],
            decreases end - i,
        {
            bytes[i - start] = self.internal_memory[i];
            i = i + 1;
        }
        assert(bytes@ =~= self.internal_memory@.subrange(start as int, end as int));
        Ok(())
    }

    fn capacity(&self) -> (c: usize) {
        self.internal_memory.len()
    }
}

impl Storage for MemoryStorage {
    fn write(&mut self, offset: u32, bytes: &[u8]) -> (r: Result<(), MemoryError>) {
        let start = offset as usize;
        let end = (offset + bytes.len() as u32) as usize;
        if end > self.internal_memory.len() {
            return Err(MemoryError);
        }
        let mut i: usize = start;
        while i < end
            invariant
                start == offset,
                end == offset + bytes@.len(),
                end <= old(self)@.len(),
                start <= i <= end,
                self.internal_memory@.len() == old(self)@.len(),
                forall|j: int| start <= j < i ==> self.internal_memory@[j] == bytes@[j - start],
                forall|j: int|
                    0 <= j < old(self)@.len() && !(start <= j < i) ==> self.internal_memory@[j]
                        == old(self)@[j],
            decreases end - i,
        {
            self.internal_memory.set(i, bytes[i - start]);
            i = i + 1;
        }
        assert(self@ =~= write_at(old(self)@, offset as int, bytes@));
        Ok(())
    }
}

} // verus!
