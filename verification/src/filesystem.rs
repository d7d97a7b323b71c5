//! The filesystem: keys mapped to values stored in chains of blocks.

use vstd::prelude::*;
use crate::layout::{
    from_le16, from_le32, le16, le32, status_byte, u16_from_le, u16_to_le, u32_from_le, u32_to_le,
    BlockStatus, BLOCK_SIZE, CHAIN_END, CHAIN_KEY_STRIDE, MAX_KEY_ID, OFFSET_ADDRESS_KEY,
    OFFSET_ADDRESS_NEXT, OFFSET_ADDRESS_PAYLOAD, OFFSET_ADDRESS_SIZE, OFFSET_BLOCK_STATUS,
    OFFSET_VALUE_SIZE, PAYLOAD_SIZE,
};
use crate::storage::{read_into, write_at, ReadStorage, Storage};

verus! {

/// The errors the filesystem reports.
#[derive(Debug)]
pub enum WeirdoFileSystemError {
    PayloadTooLarge,
    KeyNotFound,
    KeyToLarge,
}

/// The state of a filesystem as its contracts describe it.
pub struct FsView {
    /// Where the filesystem's region starts on the device.
    pub offset: u32,
    /// The size of the region in bytes.
    pub size: u32,
    /// The number of blocks in use; the next value is written at this block.
    pub used: u32,
    /// The number of blocks of the region.
    pub total: u32,
    /// The size of a block in bytes.
    pub block_size: u16,
    /// The number of payload bytes a block holds.
    pub payload_size: u16,
    /// The contents of the device.
    pub mem: Seq<u8>,
    /// Whether the device is reliable.
    pub reliable: bool,
}

impl FsView {
    /// The device address of block `b`.
    pub open spec fn block_addr(self, b: int) -> int {
        self.offset + b * BLOCK_SIZE
    }

    /// The status byte of block `b`, as a one-byte read of it gives it.
    pub open spec fn status_at(self, b: int) -> u8 {
        read_into(self.mem, self.block_addr(b), seq![0u8])[0]
    }

    /// The key bytes of block `b`, as a four-byte read of them gives them.
    pub open spec fn key_bytes_at(self, b: int) -> Seq<u8> {
        read_into(self.mem, self.block_addr(b) + OFFSET_ADDRESS_KEY, seq![0u8, 0u8, 0u8, 0u8])
    }

    /// Whether block `b` carries the key `key`.
    pub open spec fn holds_key(self, b: int, key: u32) -> bool {
        self.key_bytes_at(b) == le32(key)
    }

    /// Whether no block before `b` carries `key`.
    pub open spec fn no_key_before(self, key: u32, b: int) -> bool {
        forall|c: int| 0 <= c < b ==> !#[trigger] self.holds_key(c, key)
    }

    /// The first block at or after `b`, among the blocks in use, that carries `key`.
    pub open spec fn find_key_from(self, key: u32, b: nat) -> Option<nat>
        decreases self.used - b,
    {
        if b >= self.used {
            None
        } else if self.holds_key(b as int, key) {
            Some(b)
        } else {
            self.find_key_from(key, b + 1)
        }
    }

    /// The first block in use that carries `key`.
    pub open spec fn find_key(self, key: u32) -> Option<nat> {
        self.find_key_from(key, 0)
    }

    /// Whether looking `key` up computes no address past `u32::MAX`: every
    /// block the lookup can reach has its key field addressable.
    pub open spec fn key_scan_ok(self, key: u32) -> bool {
        forall|b: int|
            0 <= b < self.used && (!self.reliable || self.no_key_before(key, b))
                ==> #[trigger] self.block_addr(b) + OFFSET_ADDRESS_KEY + 4 <= u32::MAX
    }

    /// Whether reading the length of the value stored under `key` computes no
    /// address past `u32::MAX`: the lookup is addressable, and so is the
    /// length field of the block it can find.
    pub open spec fn value_size_ok(self, key: u32) -> bool {
        &&& self.key_scan_ok(key)
        &&& if self.reliable {
            self.find_key(key) matches Some(b) ==> self.block_addr(b as int) + OFFSET_VALUE_SIZE + 4
                <= u32::MAX
        } else {
            forall|b: int|
                0 <= b < self.used ==> #[trigger] self.block_addr(b) + OFFSET_VALUE_SIZE + 4
                    <= u32::MAX
        }
    }

    /// Whether no block before `b` is marked empty.
    pub open spec fn no_empty_before(self, b: int) -> bool {
        forall|c: int| 0 <= c < b ==> #[trigger] self.status_at(c) != status_byte(BlockStatus::Empty)
    }

    /// The first block at or after `b` marked empty, or the number of blocks.
    pub open spec fn first_empty_from(self, b: nat) -> nat
        decreases self.total - b,
    {
        if b >= self.total {
            self.total as nat
        } else if self.status_at(b as int) == status_byte(BlockStatus::Empty) {
            b
        } else {
            self.first_empty_from(b + 1)
        }
    }

    /// The state a rebuild of the cache starts from: the number of blocks
    /// computed from the region size, and no block counted as used.
    pub open spec fn with_total(self) -> FsView {
        FsView { total: (self.size / (BLOCK_SIZE as u32)) as u32, used: 0, ..self }
    }

    /// The state after the cache of block counts is rebuilt from the device.
    pub open spec fn rebuilt(self) -> FsView {
        let t = self.with_total();
        FsView { used: t.first_empty_from(0) as u32, ..t }
    }

    /// Whether scanning the status bytes computes no address past `u32::MAX`.
    pub open spec fn status_scan_ok(self) -> bool {
        forall|b: int|
            0 <= b < self.total && (!self.reliable || self.no_empty_before(b))
                ==> #[trigger] self.block_addr(b) + 1 <= u32::MAX
    }

    /// The device contents after the status bytes of blocks `0..n` are marked empty.
    pub open spec fn formatted(self, n: nat) -> Seq<u8>
        decreases n,
    {
        if n == 0 {
            self.mem
        } else {
            write_at(
                self.formatted((n - 1) as nat),
                self.block_addr(n - 1),
                seq![status_byte(BlockStatus::Empty)],
            )
        }
    }

    /// The state after every block of the region is marked empty.
    pub open spec fn format_view(self) -> FsView {
        FsView { mem: self.formatted(self.total as nat), ..self }.rebuilt()
    }

    /// The length of the value stored under `key`, as the length field of
    /// the first block carrying `key` gives it; zero where no block carries it.
    pub open spec fn value_size(self, key: u32) -> u32 {
        match self.find_key(key) {
            Some(b) => from_le32(
                read_into(
                    self.mem,
                    self.block_addr(b as int) + OFFSET_VALUE_SIZE,
                    seq![0u8, 0u8, 0u8, 0u8],
                ),
            ),
            None => 0,
        }
    }

    /// The device contents after the first `i` blocks of the chain of `key`
    /// holding `payload` are written from the first unused block on.
    pub open spec fn written(self, key: u32, payload: Seq<u8>, i: nat) -> Seq<u8>
        decreases i,
    {
        if i == 0 {
            self.mem
        } else {
            written_block(
                self.written(key, payload, (i - 1) as nat),
                self.block_addr(self.used + i - 1),
                (key + CHAIN_KEY_STRIDE * (i - 1)) as u32,
                chunk(payload, i - 1),
                i == 1,
                i == chunk_count(payload.len() as int),
                payload.len() as u32,
            )
        }
    }

    /// The state after `payload` is written under `key`.
    pub open spec fn write_view(self, key: u32, payload: Seq<u8>) -> FsView {
        if key > MAX_KEY_ID {
            self
        } else {
            let n = chunk_count(payload.len() as int);
            FsView {
                used: (self.used + n) as u32,
                mem: self.written(key, payload, n as nat),
                ..self
            }
        }
    }

    /// Whether writing `payload` under `key` computes no address past
    /// `u32::MAX`: the last byte of the last chunk is addressable.
    pub open spec fn write_ok(self, key: u32, payload: Seq<u8>) -> bool {
        let n = chunk_count(payload.len() as int);
        ||| key > MAX_KEY_ID
        ||| payload.len() == 0
        ||| self.block_addr(self.used + n - 1) + OFFSET_ADDRESS_PAYLOAD + chunk_end(
            payload.len() as int,
            n - 1,
        ) - (n - 1) * PAYLOAD_SIZE <= u32::MAX
    }

    /// Whether reading the block at the cursor computes no index past the
    /// buffer and no address past `u32::MAX`: the rest of the buffer, from
    /// the bytes counted so far on, is read from the block's payload on.
    pub open spec fn read_step_ok(self, c: ReadCursor) -> bool {
        &&& 0 <= c.got <= c.buf.len()
        &&& c.addr + OFFSET_ADDRESS_PAYLOAD + (c.buf.len() - c.got) <= u32::MAX
    }

    /// The cursor after the block at `c` is read: its chunk length, the rest
    /// of the buffer from the bytes counted so far on, and its next key.
    pub open spec fn read_step(self, c: ReadCursor) -> ReadCursor {
        let sb = read_into(self.mem, c.addr + OFFSET_ADDRESS_SIZE, c.size_bytes);
        ReadCursor {
            addr: c.addr,
            got: c.got + from_le16(sb),
            buf: c.buf.take(c.got) + read_into(
                self.mem,
                c.addr + OFFSET_ADDRESS_PAYLOAD,
                c.buf.skip(c.got),
            ),
            size_bytes: sb,
            next_bytes: read_into(self.mem, c.addr + OFFSET_ADDRESS_NEXT, c.next_bytes),
        }
    }

    /// Following the chain from the cursor for at most `fuel` blocks: what
    /// the read ends with, or `None` where it needs more blocks or a step
    /// would index past the buffer or compute past `u32::MAX`.
    pub open spec fn read_walk(self, c: ReadCursor, fuel: nat) -> Option<ReadOutcome>
        decreases fuel,
    {
        if fuel == 0 || !self.read_step_ok(c) {
            None
        } else {
            let d = self.read_step(c);
            let next = from_le32(d.next_bytes);
            if d.got > u32::MAX {
                None
            } else if next == CHAIN_END {
                Some((Ok(d.got as u32), d.buf))
            } else if !self.key_scan_ok(next) {
                None
            } else {
                match self.find_key(next) {
                    None => Some((Err(WeirdoFileSystemError::KeyNotFound), d.buf)),
                    Some(b) => self.read_walk(
                        ReadCursor { addr: self.block_addr(b as int), ..d },
                        (fuel - 1) as nat,
                    ),
                }
            }
        }
    }

    /// Where the read of `key` into `buf` starts: at the first block carrying `key`.
    pub open spec fn read_start(self, key: u32, buf: Seq<u8>) -> ReadCursor {
        ReadCursor {
            addr: self.block_addr(self.find_key(key).unwrap() as int),
            got: 0,
            buf,
            size_bytes: seq![0u8, 0u8],
            next_bytes: seq![0u8, 0u8, 0u8, 0u8],
        }
    }

    /// Whether reading `key` into `buf` ends, indexes nothing past the buffer
    /// and computes no address past `u32::MAX`.
    pub open spec fn read_ok(self, key: u32, buf: Seq<u8>) -> bool {
        ||| key > MAX_KEY_ID
        ||| {
            &&& self.key_scan_ok(key)
            &&& self.find_key(key) is Some ==> exists|f: nat| #[trigger]
                self.read_walk(self.read_start(key, buf), f) is Some
        }
    }

    /// What reading `key` into `buf` ends with.
    pub open spec fn read_result(self, key: u32, buf: Seq<u8>) -> ReadOutcome {
        if key > MAX_KEY_ID {
            (Err(WeirdoFileSystemError::KeyToLarge), buf)
        } else {
            match self.find_key(key) {
                None => (Err(WeirdoFileSystemError::KeyNotFound), buf),
                Some(b) => {
                    let c = self.read_start(key, buf);
                    self.read_walk(c, choose|f: nat| #[trigger] self.read_walk(c, f) is Some).unwrap()
                },
            }
        }
    }

    /// Whether marking every block of the region empty computes no address
    /// past `u32::MAX`.
    pub open spec fn format_ok(self) -> bool {
        self.total == 0 || self.block_addr(self.total - 1) + 1 <= u32::MAX
    }
}

/// Where a read of a value stands when it reaches a block of the chain.
pub struct ReadCursor {
    /// The device address of the block.
    pub addr: int,
    /// The number of payload bytes counted so far.
    pub got: int,
    /// The caller's buffer.
    pub buf: Seq<u8>,
    /// The bytes last read from a chunk-length field.
    pub size_bytes: Seq<u8>,
    /// The bytes last read from a next-key field.
    pub next_bytes: Seq<u8>,
}

/// What a read ends with: its result and the caller's buffer.
pub type ReadOutcome = (Result<u32, WeirdoFileSystemError>, Seq<u8>);

/// The number of blocks a value of `len` bytes takes.
pub open spec fn chunk_count(len: int) -> int {
    (len + PAYLOAD_SIZE - 1) / (PAYLOAD_SIZE as int)
}

/// Where the `i`-th chunk of a value of `len` bytes ends.
pub open spec fn chunk_end(len: int, i: int) -> int {
    if (i + 1) * PAYLOAD_SIZE < len {
        (i + 1) * PAYLOAD_SIZE
    } else {
        len
    }
}

/// The `i`-th chunk of `payload`: the bytes the `i`-th block of its chain holds.
pub open spec fn chunk(payload: Seq<u8>, i: int) -> Seq<u8> {
    payload.subrange(i * PAYLOAD_SIZE, chunk_end(payload.len() as int, i))
}

/// The device contents after one block of a chain is written at `a`: the
/// length of the whole value (first block only), the occupied status, the
/// block's key, the chunk's length, the next key (or the end-of-chain marker
/// in the last block) and the chunk itself.
pub open spec fn written_block(
    mem: Seq<u8>,
    a: int,
    block_key: u32,
    chunk: Seq<u8>,
    first: bool,
    last: bool,
    value_len: u32,
) -> Seq<u8> {
    let m1 = if first {
        write_at(mem, a + OFFSET_VALUE_SIZE, le32(value_len))
    } else {
        mem
    };
    let m2 = write_at(m1, a + OFFSET_BLOCK_STATUS, seq![status_byte(BlockStatus::Occupied)]);
    let m3 = write_at(m2, a + OFFSET_ADDRESS_KEY, le32(block_key));
    let m4 = write_at(m3, a + OFFSET_ADDRESS_SIZE, le16(chunk.len() as u16));
    let m5 = if last {
        write_at(m4, a + OFFSET_ADDRESS_NEXT, le32(CHAIN_END))
    } else {
        write_at(m4, a + OFFSET_ADDRESS_NEXT, le32((block_key + CHAIN_KEY_STRIDE) as u32))
    };
    write_at(m5, a + OFFSET_ADDRESS_PAYLOAD, chunk)
}

/// Counting chunks: the `i`-th chunk exists exactly when it starts before the
/// end of the value, every chunk but the last is full, and the last is not empty.
pub proof fn lemma_chunks(len: int, i: int)
    requires
        0 <= len,
        0 <= i,
    ensures
        i < chunk_count(len) <==> i * PAYLOAD_SIZE < len,
        0 <= chunk_count(len),
        len > 0 ==> (chunk_count(len) - 1) * PAYLOAD_SIZE < len <= chunk_count(len) * PAYLOAD_SIZE,
        len == 0 ==> chunk_count(len) == 0,
        i + 1 < chunk_count(len) ==> chunk_end(len, i) - i * PAYLOAD_SIZE == PAYLOAD_SIZE,
        i < chunk_count(len) ==> 0 < chunk_end(len, i) - i * PAYLOAD_SIZE <= PAYLOAD_SIZE,
{
    let p = PAYLOAD_SIZE as int;
    let n = chunk_count(len);
    assert(n * p <= len + p - 1 < n * p + p) by (nonlinear_arith)
        requires
            n == (len + p - 1) / p,
            p == 2033,
            len >= 0,
    ;
    assert(i < n <==> i * p < len) by (nonlinear_arith)
        requires
            n * p <= len + p - 1 < n * p + p,
            p == 2033,
            i >= 0,
    ;
    assert(i + 1 < n ==> (i + 1) * p < len) by (nonlinear_arith)
        requires
            n * p <= len + p - 1 < n * p + p,
            p == 2033,
            i >= 0,
    ;
    assert((i + 1) * p == i * p + p) by (nonlinear_arith);
}

/// Every chunk of a write that fits in the address space fits, and so do the
/// block keys and the block count it computes.
pub proof fn lemma_write_bounds(v: FsView, key: u32, payload: Seq<u8>, i: int)
    requires
        v.write_ok(key, payload),
        key <= MAX_KEY_ID,
        0 <= i < chunk_count(payload.len() as int),
    ensures
        v.block_addr(v.used + i) + OFFSET_ADDRESS_PAYLOAD + chunk_end(payload.len() as int, i) - i
            * PAYLOAD_SIZE <= u32::MAX,
        key + CHAIN_KEY_STRIDE * (i + 1) <= u32::MAX,
        v.used + i + 1 <= u32::MAX,
        payload.len() <= u32::MAX,
{
    let len = payload.len() as int;
    let n = chunk_count(len);
    lemma_chunks(len, i);
    lemma_chunks(len, n - 1);
    let last = v.block_addr(v.used + n - 1);
    assert(v.block_addr(v.used + i) + BLOCK_SIZE * (n - 1 - i) == last) by (nonlinear_arith)
        requires
            v.block_addr(v.used + i) == v.offset + (v.used + i) * 2048,
            last == v.offset + (v.used + n - 1) * 2048,
    ;
    if i + 1 < n {
        assert(BLOCK_SIZE * (n - 1 - i) >= 2048) by (nonlinear_arith)
            requires
                n - 1 - i >= 1,
        ;
    }
    assert((v.used + n - 1) * 2048 <= u32::MAX) by (nonlinear_arith)
        requires
            last == v.offset + (v.used + n - 1) * 2048,
            last <= u32::MAX,
            v.offset >= 0,
    ;
    assert(n <= 2097152) by (nonlinear_arith)
        requires
            (v.used + n - 1) * 2048 <= u32::MAX,
            v.used >= 0,
    ;
    assert(CHAIN_KEY_STRIDE * (i + 1) <= 1000 * n) by (nonlinear_arith)
        requires
            i + 1 <= n,
    ;
    assert(len <= n * PAYLOAD_SIZE);
    assert(n * 2033 <= u32::MAX) by (nonlinear_arith)
        requires
            n <= 2097152,
    ;
}

/// A read that ends within some fuel ends the same way with more.
pub proof fn lemma_read_walk_fuel(v: FsView, c: ReadCursor, f: nat, g: nat)
    requires
        f <= g,
        v.read_walk(c, f) is Some,
    ensures
        v.read_walk(c, g) == v.read_walk(c, f),
    decreases f,
{
    if f > 0 && v.read_step_ok(c) {
        let d = v.read_step(c);
        let next = from_le32(d.next_bytes);
        if d.got <= u32::MAX && next != CHAIN_END && v.key_scan_ok(next) {
            if let Some(b) = v.find_key(next) {
                lemma_read_walk_fuel(
                    v,
                    ReadCursor { addr: v.block_addr(b as int), ..d },
                    (f - 1) as nat,
                    (g - 1) as nat,
                );
            }
        }
    }
}

/// The first block carrying a key is the first block in use whose key field holds it.
pub proof fn lemma_find_key_from(v: FsView, key: u32, b: nat)
    ensures
        match v.find_key_from(key, b) {
            Some(r) => {
                &&& b <= r < v.used
                &&& v.holds_key(r as int, key)
                &&& forall|c: int| b <= c < r ==> !#[trigger] v.holds_key(c, key)
            },
            None => forall|c: int| b <= c < v.used ==> !#[trigger] v.holds_key(c, key),
        },
    decreases v.used - b,
{
    if b < v.used && !v.holds_key(b as int, key) {
        lemma_find_key_from(v, key, b + 1);
    }
}

/// The first empty block is the first block of the region whose status is empty.
pub proof fn lemma_first_empty_from(v: FsView, b: nat)
    requires
        b <= v.total,
    ensures
        b <= v.first_empty_from(b) <= v.total,
        forall|c: int|
            b <= c < v.first_empty_from(b) ==> #[trigger] v.status_at(c) != status_byte(
                BlockStatus::Empty,
            ),
        v.first_empty_from(b) < v.total ==> v.status_at(v.first_empty_from(b) as int)
            == status_byte(BlockStatus::Empty),
    decreases v.total - b,
{
    if b < v.total && v.status_at(b as int) != status_byte(BlockStatus::Empty) {
        lemma_first_empty_from(v, b + 1);
    }
}

/// A simple filesystem implementation using embedded storage.
/// It manages key-value pairs stored in fixed-size blocks.
/// Each block can hold a portion of the value, with chaining for larger values.
pub struct WeirdoFileSystem<T> where T: Storage {
    /// The device the filesystem lives on.
    pub storage: T,
    offset: u32,
    size: u32,
    empty_block: u32,
    total_blocks: u32,
    block_size: u16,
    payload_size: u16,
}

impl<T: Storage> View for WeirdoFileSystem<T> {
    type V = FsView;

    closed spec fn view(&self) -> FsView {
        FsView {
            offset: self.offset,
            size: self.size,
            used: self.empty_block,
            total: self.total_blocks,
            block_size: self.block_size,
            payload_size: self.payload_size,
            mem: self.storage.contents(),
            reliable: self.storage.is_reliable(),
        }
    }
}

impl<T: Storage> WeirdoFileSystem<T> {
    /// Whether the block geometry is the one of the layout.
    pub open spec fn geometry_ok(&self) -> bool {
        &&& self@.block_size == BLOCK_SIZE
        &&& self@.payload_size == PAYLOAD_SIZE
    }

    /// Whether the filesystem is well formed: the block geometry is the one of
    /// the layout and the number of blocks is the one the region holds.
    pub open spec fn wf(&self) -> bool {
        &&& self.geometry_ok()
        &&& self@.total == self@.size / (BLOCK_SIZE as u32)
    }

    /// The device in the public `storage` field. Its contents and its
    /// reliability are those of the state the contracts describe.
    pub fn device(&self) -> (d: &T)
        ensures
            d.contents() == self@.mem,
            d.is_reliable() == self@.reliable,
    {
        &self.storage
    }

    /// Creates a new WeirdoFileSystem instance.
    /// Initializes the filesystem with the given storage, offset, and size.
    /// Builds the internal cache of empty blocks.
    pub fn new(storage: T, offset: u32, size: u32) -> (s: Self)
        requires
            (FsView {
                offset,
                size,
                used: 0,
                total: 0,
                block_size: BLOCK_SIZE,
                payload_size: PAYLOAD_SIZE,
                mem: storage.contents(),
                reliable: storage.is_reliable(),
            }).with_total().status_scan_ok(),
        ensures
            s.wf(),
            ({
                let v = FsView {
                    offset,
                    size,
                    used: 0,
                    total: 0,
                    block_size: BLOCK_SIZE,
                    payload_size: PAYLOAD_SIZE,
                    mem: storage.contents(),
                    reliable: storage.is_reliable(),
                };
                &&& s@.reliable ==> s@ == v.rebuilt()
                &&& s@ == (FsView { used: s@.used, ..v.with_total() })
                &&& s@.used <= s@.total
            }),
    {
        let mut new_fs = WeirdoFileSystem {
            storage,
            offset,
            size,
            empty_block: 0,
            total_blocks: 0,
            block_size: BLOCK_SIZE,
            payload_size: BLOCK_SIZE - OFFSET_ADDRESS_PAYLOAD as u16,
        };
        new_fs.build_cache();
        new_fs
    }

    /// Builds the cache by scanning blocks to find the first empty block and total blocks.
    /// Updates empty_block and total_blocks fields.
    pub fn build_cache(&mut self)
        requires
            old(self).geometry_ok(),
            old(self)@.with_total().status_scan_ok(),
        ensures
            final(self).wf(),
            old(self)@.reliable ==> final(self)@ == old(self)@.rebuilt(),
            final(self)@ == (FsView { used: final(self)@.used, ..old(self)@.with_total() }),
            final(self)@.used <= final(self)@.total,
    {
        self.empty_block = 0;
        self.total_blocks = self.size / self.block_size as u32;
        let ghost v = self@;
        proof {
            lemma_first_empty_from(v, 0);
        }
        let mut block: u32 = 0;
        while block < self.total_blocks
            invariant
                self.geometry_ok(),
                self.total_blocks == self.size / (BLOCK_SIZE as u32),
                v == old(self)@.with_total(),
                v.used == 0,
                self@ == (FsView { used: block, ..v }),
                block <= v.total,
                v.status_scan_ok(),
                v.reliable ==> v.no_empty_before(block as int),
                v.reliable ==> v.first_empty_from(block as nat) == v.first_empty_from(0),
            decreases v.total - block,
        {
            assert(block * 2048 + 2048 <= self.size) by (nonlinear_arith)
                requires
                    block < self.size / 2048,
            ;
            assert(v.block_addr(block as int) + 1 <= u32::MAX);
            let address = self.offset + (block * self.block_size as u32);
            let mut block_status = [0u8; 1];
            let _ = self.storage.read(address + OFFSET_BLOCK_STATUS as u32, &mut block_status);
            if block_status[0] == BlockStatus::Empty.byte() {
                proof {
                    if v.reliable {
                        assert(block_status@ =~= seq![v.status_at(block as int)]);
                    }
                }
                return;
            } else {
                self.empty_block += 1;
            }
            proof {
                if v.reliable {
                    assert(block_status@ =~= seq![v.status_at(block as int)]);
                    assert forall|c: int| 0 <= c < block + 1 implies #[trigger] v.status_at(c)
                        != status_byte(BlockStatus::Empty) by {}
                }
            }
            block += 1;
        }
    }

    /// Formats the filesystem by marking all blocks as empty.
    /// Rebuilds the cache afterward.
    pub fn format(&mut self)
        requires
            old(self).wf(),
            old(self)@.format_ok(),
        ensures
            final(self).wf(),
            old(self)@.reliable ==> final(self)@ == old(self)@.format_view(),
            final(self)@ == (FsView { used: final(self)@.used, mem: final(self)@.mem, ..old(self)@ }),
            final(self)@.mem.len() == old(self)@.mem.len(),
            final(self)@.used <= final(self)@.total,
    {
        let ghost v = self@;
        let mut block: u32 = 0;
        while block < self.total_blocks
            invariant
                self.wf(),
                v == old(self)@,
                self@ == (FsView { mem: self@.mem, ..v }),
                self@.mem.len() == v.mem.len(),
                v.reliable ==> self@.mem == v.formatted(block as nat),
                block <= v.total,
                v.format_ok(),
            decreases v.total - block,
        {
            assert(block * 2048 + 2048 <= self.size) by (nonlinear_arith)
                requires
                    block < self.size / 2048,
            ;
            assert(v.block_addr(block as int) <= v.block_addr(v.total - 1)) by (nonlinear_arith)
                requires
                    block <= v.total - 1,
            ;
            let block_address = self.offset + (block * self.block_size as u32);
            let status = [BlockStatus::Empty.byte()];
            let _ = self.storage.write(block_address + OFFSET_BLOCK_STATUS as u32, &status);
            proof {
                if v.reliable {
                    assert(status@ =~= seq![status_byte(BlockStatus::Empty)]);
                }
            }
            block += 1;
        }
        proof {
            let w = self@.with_total();
            assert forall|b: int|
                0 <= b < w.total && (!w.reliable || w.no_empty_before(b)) implies
                #[trigger] w.block_addr(b) + 1 <= u32::MAX by {
                assert(w.block_addr(b) <= w.block_addr(w.total - 1)) by (nonlinear_arith)
                    requires
                        b <= w.total - 1,
                ;
            }
        }
        self.build_cache();
    }

    /// Checks if a key exists in the filesystem.
    /// Returns (found, block_address) tuple.
    fn contains_key(&mut self, key: u32) -> (r: (bool, u32))
        requires
            old(self).wf(),
            old(self)@.key_scan_ok(key),
        ensures
            final(self).wf(),
            final(self)@ == old(self)@,
            old(self)@.reliable ==> (match old(self)@.find_key(key) {
                Some(b) => r.0 && r.1 == old(self)@.block_addr(b as int),
                None => !r.0 && r.1 == 0,
            }),
            r.0 ==> r.1 + OFFSET_ADDRESS_KEY + 4 <= u32::MAX,
            r.0 ==> exists|b: int| 0 <= b < old(self)@.used && r.1 == old(self)@.block_addr(b),
            !r.0 ==> r.1 == 0,
    {
        let ghost v = self@;
        proof {
            lemma_find_key_from(v, key, 0);
        }
        let kb = u32_to_le(key);
        let mut block: u32 = 0;
        while block < self.empty_block
            invariant
                self.wf(),
                v == old(self)@,
                self@ == v,
                kb@ == le32(key),
                block <= v.used,
                v.key_scan_ok(key),
                v.reliable ==> v.no_key_before(key, block as int),
                match v.find_key(key) {
                    Some(r) => {
                        &&& 0 <= r < v.used
                        &&& v.holds_key(r as int, key)
                        &&& forall|c: int| 0 <= c < r ==> !#[trigger] v.holds_key(c, key)
                    },
                    None => forall|c: int| 0 <= c < v.used ==> !#[trigger] v.holds_key(c, key),
                },
            decreases v.used - block,
        {
            assert(v.block_addr(block as int) + 5 <= u32::MAX);
            let block_address = self.offset + (block * self.block_size as u32);
            let mut stored_key = [0u8; 4];
            let _ = self.storage.read(block_address + OFFSET_ADDRESS_KEY as u32, &mut stored_key);
            let same = stored_key[0] == kb[0] && stored_key[1] == kb[1] && stored_key[2] == kb[2]
                && stored_key[3] == kb[3];
            proof {
                if v.reliable {
                    assert(stored_key@ =~= v.key_bytes_at(block as int));
                }
                if same {
                    assert(stored_key@ =~= kb@);
                    if v.reliable {
                        assert(v.holds_key(block as int, key));
                    }
                } else {
                    assert(stored_key@ != kb@);
                }
            }
            if same {
                return (true, block_address);
            }
            block += 1;
        }
        (false, 0)
    }

    /// Returns the address of the next empty block.
    fn addres_of_empty_block(&self) -> (r: u32)
        requires
            self.wf(),
            self@.block_addr(self@.used as int) <= u32::MAX,
        ensures
            r == self@.block_addr(self@.used as int),
    {
        self.offset + self.empty_block * self.block_size as u32
    }

    /// The length of the value stored under `key`, as its first block records
    /// it; zero where the key is not stored.
    pub fn size_of_key_value(&mut self, key: u32) -> (r: Result<u32, WeirdoFileSystemError>)
        requires
            old(self).wf(),
            key <= MAX_KEY_ID ==> old(self)@.value_size_ok(key),
        ensures
            final(self).wf(),
            final(self)@ == old(self)@,
            key > MAX_KEY_ID ==> r matches Err(WeirdoFileSystemError::KeyToLarge),
            key <= MAX_KEY_ID ==> r is Ok,
            key <= MAX_KEY_ID && old(self)@.reliable ==> r == Ok::<u32, WeirdoFileSystemError>(
                old(self)@.value_size(key),
            ),
    {
        if key > MAX_KEY_ID {
            return Err(WeirdoFileSystemError::KeyToLarge);
        }
        let (found, found_block_address) = self.contains_key(key);
        let mut stored_size_of_value = [0u8; 4];
        assert(stored_size_of_value@ =~= seq![0u8, 0u8, 0u8, 0u8]);
        if found {
            let _ = self.storage.read(
                found_block_address + OFFSET_VALUE_SIZE as u32,
                &mut stored_size_of_value,
            );
            proof {
                if self@.reliable {
                    assert(stored_size_of_value@ =~= read_into(
                        self@.mem,
                        self@.block_addr(self@.find_key(key).unwrap() as int) + OFFSET_VALUE_SIZE,
                        seq![0u8, 0u8, 0u8, 0u8],
                    ));
                }
            }
            return Ok(u32_from_le(&stored_size_of_value));
        }
        Ok(0u32)
    }

    /// Writes a key-value pair to the filesystem.
    /// Splits the payload into chunks if necessary and chains blocks: each
    /// block names the key of the next one, and the last block carries the
    /// end-of-chain marker, whether its chunk is full or not.
    /// Returns an error if the key is too large.
    pub fn write_key_value(&mut self, key: u32, payload: &[u8]) -> (r: Result<
        (),
        WeirdoFileSystemError,
    >)
        requires
            old(self).wf(),
            old(self)@.write_ok(key, payload@),
        ensures
            final(self).wf(),
            key > MAX_KEY_ID ==> r matches Err(WeirdoFileSystemError::KeyToLarge),
            key > MAX_KEY_ID ==> final(self)@ == old(self)@,
            key <= MAX_KEY_ID ==> r is Ok,
            final(self)@ == (FsView {
                mem: final(self)@.mem,
                ..old(self)@.write_view(key, payload@)
            }),
            final(self)@.mem.len() == old(self)@.mem.len(),
            old(self)@.reliable ==> final(self)@ == old(self)@.write_view(key, payload@),
    {
        if key > MAX_KEY_ID {
            return Err(WeirdoFileSystemError::KeyToLarge);
        }
        let ghost v = self@;
        let len = payload.len();
        let chunk_size = self.payload_size as usize;
        let mut block_key: u32 = key;
        let mut start: usize = 0;
        let mut i: usize = 0;
        proof {
            lemma_chunks(len as int, 0);
            if len == 0 {
                assert(chunk_count(0) == 0);
            }
        }
        while start < len
            invariant
                self.wf(),
                v == old(self)@,
                key <= MAX_KEY_ID,
                len == payload@.len(),
                chunk_size == PAYLOAD_SIZE,
                v.write_ok(key, payload@),
                0 <= i <= chunk_count(len as int),
                i < chunk_count(len as int) ==> start == i * PAYLOAD_SIZE,
                i == chunk_count(len as int) ==> start == len,
                start < len <==> i < chunk_count(len as int),
                i < chunk_count(len as int) ==> block_key == key + CHAIN_KEY_STRIDE * i,
                self@ == (FsView { used: (v.used + i) as u32, mem: self@.mem, ..v }),
                self@.mem.len() == v.mem.len(),
                v.reliable ==> self@.mem == v.written(key, payload@, i as nat),
            decreases len - start,
        {
            proof {
                lemma_write_bounds(v, key, payload@, i as int);
                lemma_chunks(len as int, i as int);
                lemma_chunks(len as int, i + 1);
            }
            let end = if len - start > chunk_size {
                start + chunk_size
            } else {
                len
            };
            assert(end == chunk_end(len as int, i as int));
            let block = vstd::slice::slice_subrange(payload, start, end);
            assert(block@ == chunk(payload@, i as int));
            let ghost m0 = self@.mem;
            let empty_block_address = self.addres_of_empty_block();
            if i == 0 {
                let value_len = u32_to_le(payload.len() as u32);
                let _ = self.storage.write(empty_block_address + OFFSET_VALUE_SIZE as u32, &value_len);
            }
            let ghost m1 = self@.mem;
            // Mark block as occupied
            let status = [BlockStatus::Occupied.byte()];
            let _ = self.storage.write(empty_block_address + OFFSET_BLOCK_STATUS as u32, &status);
            let ghost m2 = self@.mem;
            // Write key
            let key_bytes = u32_to_le(block_key);
            let _ = self.storage.write(empty_block_address + OFFSET_ADDRESS_KEY as u32, &key_bytes);
            let ghost m3 = self@.mem;
            // Write size of this chunk
            let chunk_len = u16_to_le(block.len() as u16);
            let _ = self.storage.write(empty_block_address + OFFSET_ADDRESS_SIZE as u32, &chunk_len);
            let ghost m4 = self@.mem;
            // Write next key, or the end marker after the last chunk
            if end == len {
                let end_marker = u32_to_le(CHAIN_END);
                let _ = self.storage.write(empty_block_address + OFFSET_ADDRESS_NEXT as u32, &end_marker);
            } else {
                block_key += CHAIN_KEY_STRIDE;
                let next_bytes = u32_to_le(block_key);
                let _ = self.storage.write(empty_block_address + OFFSET_ADDRESS_NEXT as u32, &next_bytes);
            }
            let ghost m5 = self@.mem;
            // Write payload
            let _ = self.storage.write(empty_block_address + OFFSET_ADDRESS_PAYLOAD as u32, block);
            self.empty_block += 1;
            proof {
                if v.reliable {
                    assert(status@ =~= seq![status_byte(BlockStatus::Occupied)]);
                    assert(self@.mem == v.written(key, payload@, (i + 1) as nat));
                }
            }
            start = end;
            i += 1;
        }
        Ok(())
    }

    /// Reads a key-value pair from the filesystem.
    /// Reassembles the value from chained blocks.
    /// Returns the size of the read data or an error.
    #[verifier::spinoff_prover]
    #[verifier::rlimit(50)]
    pub fn read_key_value(&mut self, key: u32, value: &mut [u8]) -> (r: Result<
        u32,
        WeirdoFileSystemError,
    >)
        requires
            old(self).wf(),
            old(self)@.reliable,
            old(self)@.read_ok(key, old(value)@),
        ensures
            final(self).wf(),
            final(self)@ == old(self)@,
            (r, final(value)@) == old(self)@.read_result(key, old(value)@),
    {
        if key > MAX_KEY_ID {
            return Err(WeirdoFileSystemError::KeyToLarge);
        }
        let ghost v = self@;
        let mut block_address: u32;
        let (found, found_block_address) = self.contains_key(key);
        if found {
            let mut payload_size: u32 = 0;
            let mut stored_size = [0u8; 2];
            let mut next_key = [0u8; 4];
            block_address = found_block_address;
            let ghost start = v.read_start(key, value@);
            let ghost mut fuel: nat = choose|f: nat| #[trigger] v.read_walk(start, f) is Some;
            let ghost target = v.read_walk(start, fuel).unwrap();
            proof {
                assert(stored_size@ =~= seq![0u8, 0u8]);
                assert(next_key@ =~= seq![0u8, 0u8, 0u8, 0u8]);
            }
            loop
                invariant
                    self.wf(),
                    self@ == v,
                    v == old(self)@,
                    v.reliable,
                    v.read_walk(
                        ReadCursor {
                            addr: block_address as int,
                            got: payload_size as int,
                            buf: value@,
                            size_bytes: stored_size@,
                            next_bytes: next_key@,
                        },
                        fuel,
                    ) == Some(target),
                    target == v.read_result(key, old(value)@),
                    stored_size@.len() == 2,
                    next_key@.len() == 4,
                decreases fuel,
            {
                let ghost c = ReadCursor {
                    addr: block_address as int,
                    got: payload_size as int,
                    buf: value@,
                    size_bytes: stored_size@,
                    next_bytes: next_key@,
                };
                let ghost d = v.read_step(c);
                // Read size of this chunk
                let _ = self.storage.read(block_address + OFFSET_ADDRESS_SIZE as u32, &mut stored_size);
                // Read payload into value buffer
                {
                    let (_, rest) = value.split_at_mut(payload_size as usize);
                    let _ = self.storage.read(block_address + OFFSET_ADDRESS_PAYLOAD as u32, rest);
                }
                // Read next key
                let _ = self.storage.read(block_address + OFFSET_ADDRESS_NEXT as u32, &mut next_key);
                proof {
                    assert(value@ =~= d.buf);
                }
                payload_size += u16_from_le(&stored_size) as u32;
                let next_key_retreived = u32_from_le(&next_key);
                if next_key_retreived == CHAIN_END {
                    return Ok(payload_size);
                }
                let (found, found_block_address) = self.contains_key(next_key_retreived);
                block_address = found_block_address;
                if !found {
                    return Err(WeirdoFileSystemError::KeyNotFound);
                }
                proof {
                    fuel = (fuel - 1) as nat;
                }
            }
        } else {
            Err(WeirdoFileSystemError::KeyNotFound)
        }
    }

    /// Returns the number of free (empty) blocks available.
    pub fn amount_of_used_blocks(&mut self) -> (r: u32)
        requires
            old(self)@.used <= old(self)@.total,
        ensures
            r == old(self)@.total - old(self)@.used,
            *final(self) == *old(self),
    {
        self.total_blocks - self.empty_block
    }

    /// Returns the number of free (empty) blocks available.
    pub fn amount_of_free_blocks(&mut self) -> (r: u32)
        requires
            old(self)@.used <= old(self)@.total,
        ensures
            r == old(self)@.total - old(self)@.used,
            *final(self) == *old(self),
    {
        self.total_blocks - self.empty_block
    }

    /// Returns the number of blocks of the region.
    pub fn total_blocks(&mut self) -> (r: u32)
        ensures
            r == old(self)@.total,
            *final(self) == *old(self),
    {
        self.total_blocks
    }
}

} // verus!
