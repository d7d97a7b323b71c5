//! The storage device interface the filesystem runs on, and a byte-level
//! model of what reading and writing a device does.

use vstd::prelude::*;

verus! {

/// What a read of `len(buf)` bytes at `addr` leaves in `buf`, on a device
/// that holds `mem` and fails exactly the reads that run past its end
/// (a failed read leaves the buffer as it was).
pub open spec fn read_into(mem: Seq<u8>, addr: int, buf: Seq<u8>) -> Seq<u8> {
    if 0 <= addr && addr + buf.len() <= mem.len() {
        mem.subrange(addr, addr + buf.len())
    } else {
        buf
    }
}

/// Whether a read or write of `len` bytes at `addr` stays inside `mem`.
pub open spec fn in_range(mem: Seq<u8>, addr: int, len: int) -> bool {
    0 <= addr && addr + len <= mem.len()
}

/// What `mem` becomes after writing `data` at `addr`, on a device that fails
/// exactly the writes that run past its end (a failed write changes nothing).
pub open spec fn write_at(mem: Seq<u8>, addr: int, data: Seq<u8>) -> Seq<u8> {
    if in_range(mem, addr, data.len() as int) {
        Seq::new(mem.len(), |i: int| if addr <= i < addr + data.len() { data[i - addr] } else { mem[i] })
    } else {
        mem
    }
}

/// A storage device that can be read at byte offsets.
///
/// A *reliable* device is described by its contents, a sequence of bytes as
/// long as its capacity: every access that stays inside the capacity succeeds
/// and reads or writes the contents, and every access that runs past it fails
/// without effect. Of a device that is not known to be reliable (such as a
/// driver implemented outside verified code, which keeps the defaults below)
/// the contracts promise nothing about what it reads, writes or reports.
pub trait ReadStorage {
    /// The error a failed access reports.
    type Error;

    /// The bytes the device holds. A verified device states its own; the
    /// default (no bytes) only lets devices outside verified code implement the
    /// trait, and no proof about a device in general uses it.
    closed spec fn contents(&self) -> Seq<u8> {
        Seq::empty()
    }

    /// Whether the device answers every access as described above. (A device
    /// that does not state it is not known to be reliable.)
    closed spec fn is_reliable(&self) -> bool {
        false
    }

    /// Reads `bytes.len()` bytes starting at `offset` into `bytes`.
    fn read(&mut self, offset: u32, bytes: &mut [u8]) -> (r: Result<(), Self::Error>)
        requires
            offset + old(bytes)@.len() <= u32::MAX,
        ensures
            final(self).contents() == old(self).contents(),
            final(self).is_reliable() == old(self).is_reliable(),
            final(bytes)@.len() == old(bytes)@.len(),
            old(self).is_reliable() ==> (r is Ok <==> in_range(
                old(self).contents(),
                offset as int,
                old(bytes)@.len() as int,
            )),
            old(self).is_reliable() ==> final(bytes)@ == read_into(
                old(self).contents(),
                offset as int,
                old(bytes)@,
            ),
    ;

    /// The capacity of the device in bytes.
    fn capacity(&self) -> (c: usize)
        ensures
            self.is_reliable() ==> c == self.contents().len(),
    ;
}

/// A storage device that can also be written at byte offsets.
pub trait Storage: ReadStorage {
    /// Writes `bytes` starting at `offset`.
    fn write(&mut self, offset: u32, bytes: &[u8]) -> (r: Result<(), Self::Error>)
        requires
            offset + bytes@.len() <= u32::MAX,
        ensures
            final(self).is_reliable() == old(self).is_reliable(),
            final(self).contents().len() == old(self).contents().len(),
            old(self).is_reliable() ==> (r is Ok <==> in_range(
                old(self).contents(),
                offset as int,
                bytes@.len() as int,
            )),
            old(self).is_reliable() ==> final(self).contents() == write_at(
                old(self).contents(),
                offset as int,
                bytes@,
            ),
    ;
}
/// On a reliable device a read of a span just written gives back the bytes
/// written, and a read of a span the write does not overlap gives what it
/// gave before.
pub proof fn law_read_after_write(mem: Seq<u8>, addr: int, data: Seq<u8>, raddr: int, buf: Seq<u8>)
    requires
        in_range(mem, addr, data.len() as int),
    ensures
        raddr == addr && buf.len() == data.len() ==> read_into(write_at(mem, addr, data), raddr, buf)
            == data,
        raddr + buf.len() <= addr || addr + data.len() <= raddr ==> read_into(
            write_at(mem, addr, data),
            raddr,
            buf,
        ) == read_into(mem, raddr, buf),
{
    let m2 = write_at(mem, addr, data);
    if raddr == addr && buf.len() == data.len() {
        assert(m2.subrange(raddr, raddr + buf.len()) =~= data);
    }
    if (raddr + buf.len() <= addr || addr + data.len() <= raddr) && in_range(mem, raddr, buf.len() as int) {
        assert(m2.subrange(raddr, raddr + buf.len()) =~= mem.subrange(raddr, raddr + buf.len()));
    }
}

} // verus!
