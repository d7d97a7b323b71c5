//! What the filesystem's operations promise of one another.

use vstd::prelude::*;
use crate::filesystem::{chunk, chunk_count, chunk_end, written_block, FsView};
use crate::layout::{
    le16, le32, status_byte, CHAIN_END, BlockStatus, BLOCK_SIZE, CHAIN_KEY_STRIDE, OFFSET_ADDRESS_KEY,
    OFFSET_ADDRESS_NEXT, OFFSET_ADDRESS_PAYLOAD, OFFSET_ADDRESS_SIZE, OFFSET_VALUE_SIZE,
    PAYLOAD_SIZE,
};
use crate::storage::{read_into, write_at};

verus! {

/// Writing a block changes only the bytes of that block's fields, and each
/// byte it leaves depends only on the byte that was there before.
proof fn lemma_written_block_frame(
    m1: Seq<u8>,
    m2: Seq<u8>,
    a: int,
    block_key: u32,
    ch: Seq<u8>,
    first: bool,
    last: bool,
    value_len: u32,
    x: int,
)
    requires
        m1.len() == m2.len(),
        0 <= x < m1.len(),
        m1[x] == m2[x],
    ensures
        written_block(m1, a, block_key, ch, first, last, value_len).len() == m1.len(),
        written_block(m1, a, block_key, ch, first, last, value_len)[x] == written_block(
            m2,
            a,
            block_key,
            ch,
            first,
            last,
            value_len,
        )[x],
        !(a <= x < a + OFFSET_ADDRESS_PAYLOAD + ch.len()) ==> written_block(
            m1,
            a,
            block_key,
            ch,
            first,
            last,
            value_len,
        )[x] == m1[x],
{
}

/// The fields of a block written inside the device hold what was written.
proof fn lemma_written_block_fields(
    m: Seq<u8>,
    a: int,
    block_key: u32,
    ch: Seq<u8>,
    first: bool,
    last: bool,
    value_len: u32,
)
    requires
        0 <= a,
        a + OFFSET_ADDRESS_PAYLOAD <= m.len(),
        ch.len() <= PAYLOAD_SIZE,
    ensures
        ({
            let wb = written_block(m, a, block_key, ch, first, last, value_len);
            &&& wb[a] == status_byte(BlockStatus::Occupied)
            &&& wb.subrange(a + OFFSET_ADDRESS_KEY, a + OFFSET_ADDRESS_KEY + 4) == le32(block_key)
            &&& wb.subrange(a + OFFSET_ADDRESS_SIZE, a + OFFSET_ADDRESS_SIZE + 2) == le16(
                ch.len() as u16,
            )
            &&& a + OFFSET_ADDRESS_PAYLOAD + ch.len() <= m.len() ==> wb.subrange(
                a + OFFSET_ADDRESS_PAYLOAD,
                a + OFFSET_ADDRESS_PAYLOAD + ch.len(),
            ) == ch
            &&& first ==> wb.subrange(a + OFFSET_VALUE_SIZE, a + OFFSET_VALUE_SIZE + 4) == le32(
                value_len,
            )
            &&& last ==> wb.subrange(a + OFFSET_ADDRESS_NEXT, a + OFFSET_ADDRESS_NEXT + 4) == le32(
                CHAIN_END,
            )
            &&& !last ==> wb.subrange(
                a + OFFSET_ADDRESS_NEXT,
                a + OFFSET_ADDRESS_NEXT + 4,
            ) == le32((block_key + CHAIN_KEY_STRIDE) as u32)
        }),
{
    let wb = written_block(m, a, block_key, ch, first, last, value_len);
    assert(wb.subrange(a + OFFSET_ADDRESS_KEY, a + OFFSET_ADDRESS_KEY + 4) =~= le32(block_key));
    assert(wb.subrange(a + OFFSET_ADDRESS_SIZE, a + OFFSET_ADDRESS_SIZE + 2) =~= le16(
        ch.len() as u16,
    ));
    if a + OFFSET_ADDRESS_PAYLOAD + ch.len() <= m.len() {
        assert(wb.subrange(a + OFFSET_ADDRESS_PAYLOAD, a + OFFSET_ADDRESS_PAYLOAD + ch.len()) =~= ch);
    }
    if first {
        assert(wb.subrange(a + OFFSET_VALUE_SIZE, a + OFFSET_VALUE_SIZE + 4) =~= le32(value_len));
    }
    if last {
        assert(wb.subrange(a + OFFSET_ADDRESS_NEXT, a + OFFSET_ADDRESS_NEXT + 4) =~= le32(CHAIN_END));
    } else {
        assert(wb.subrange(a + OFFSET_ADDRESS_NEXT, a + OFFSET_ADDRESS_NEXT + 4) =~= le32(
            (block_key + CHAIN_KEY_STRIDE) as u32,
        ));
    }
}

/// What the `j`-th block of the chain of `key` holding `payload` looks like,
/// written over the device contents `v.mem`.
pub open spec fn block_image(v: FsView, key: u32, payload: Seq<u8>, j: int) -> Seq<u8> {
    written_block(
        v.mem,
        v.block_addr(v.used + j),
        (key + CHAIN_KEY_STRIDE * j) as u32,
        chunk(payload, j),
        j == 0,
        j + 1 == chunk_count(payload.len() as int),
        payload.len() as u32,
    )
}

/// After the first `i` blocks of a chain are written, each of them holds its
/// own image, and every byte outside them is as it was.
proof fn lemma_written(v: FsView, key: u32, payload: Seq<u8>, i: nat)
    requires
        i <= chunk_count(payload.len() as int),
    ensures
        v.written(key, payload, i).len() == v.mem.len(),
        forall|x: int|
            0 <= x < v.mem.len() && (x < v.block_addr(v.used as int) || x >= v.block_addr(
                v.used + i,
            )) ==> #[trigger] v.written(key, payload, i)[x] == v.mem[x],
        forall|j: int, x: int|
            0 <= j < i && v.block_addr(v.used + j) <= x < v.block_addr(v.used + j) + BLOCK_SIZE
                && 0 <= x < v.mem.len() ==> v.written(key, payload, i)[x] == #[trigger] block_image(
                v,
                key,
                payload,
                j,
            )[x],
    decreases i,
{
    if i > 0 {
        let k = (i - 1) as nat;
        lemma_written(v, key, payload, k);
        crate::filesystem::lemma_chunks(payload.len() as int, k as int);
        let prev = v.written(key, payload, k);
        let cur = v.written(key, payload, i);
        let a = v.block_addr(v.used + k);
        let ch = chunk(payload, k as int);
        let bk = (key + CHAIN_KEY_STRIDE * k) as u32;
        assert(ch.len() <= PAYLOAD_SIZE);
        assert(v.block_addr(v.used + i) == a + BLOCK_SIZE);
        assert forall|x: int| 0 <= x < v.mem.len() implies cur[x] == (if a <= x < a
            + BLOCK_SIZE {
            block_image(v, key, payload, k as int)[x]
        } else {
            prev[x]
        }) by {
            if a <= x < a + BLOCK_SIZE {
                assert(prev[x] == v.mem[x]);
                lemma_written_block_frame(
                    prev,
                    v.mem,
                    a,
                    bk,
                    ch,
                    k == 0,
                    k + 1 == chunk_count(payload.len() as int),
                    payload.len() as u32,
                    x,
                );
            } else {
                lemma_written_block_frame(
                    prev,
                    prev,
                    a,
                    bk,
                    ch,
                    k == 0,
                    k + 1 == chunk_count(payload.len() as int),
                    payload.len() as u32,
                    x,
                );
            }
        }
        assert forall|j: int, x: int|
            0 <= j < i && v.block_addr(v.used + j) <= x < v.block_addr(v.used + j) + BLOCK_SIZE
                && 0 <= x < v.mem.len() implies cur[x] == #[trigger] block_image(
            v,
            key,
            payload,
            j,
        )[x] by {
            if j < k {
                assert(v.block_addr(v.used + j) + BLOCK_SIZE <= a);
            }
        }
    }
}

/// A key is first found at the first block in use that carries it.
pub proof fn lemma_find_key_at(v: FsView, key: u32, r: int)
    requires
        0 <= r < v.used,
        v.holds_key(r, key),
        forall|c: int| 0 <= c < r ==> !#[trigger] v.holds_key(c, key),
    ensures
        v.find_key(key) == Some(r as nat),
{
    crate::filesystem::lemma_find_key_from(v, key, 0);
}

/// Reading `n` bytes at `addr` gives the same in two states that agree on them.
proof fn lemma_read_same(m1: Seq<u8>, m2: Seq<u8>, addr: int, buf: Seq<u8>)
    requires
        m1.len() == m2.len(),
        forall|x: int| addr <= x < addr + buf.len() && 0 <= x < m1.len() ==> m1[x] == m2[x],
    ensures
        read_into(m1, addr, buf) == read_into(m2, addr, buf),
{
    if 0 <= addr && addr + buf.len() <= m1.len() {
        assert(m1.subrange(addr, addr + buf.len()) =~= m2.subrange(addr, addr + buf.len()));
    }
}

/// Writing a chain leaves the blocks before it as they were: a lookup that
/// reads only blocks in use before the write reads what it read before.
proof fn lemma_old_block_same(v: FsView, key: u32, payload: Seq<u8>, b: int)
    requires
        key <= crate::layout::MAX_KEY_ID,
        0 <= b < v.used,
    ensures
        ({
            let w = v.write_view(key, payload);
            &&& w.key_bytes_at(b) == v.key_bytes_at(b)
            &&& w.status_at(b) == v.status_at(b)
        }),
{
    let w = v.write_view(key, payload);
    let n = chunk_count(payload.len() as int);
    crate::filesystem::lemma_chunks(payload.len() as int, 0);
    lemma_written(v, key, payload, n as nat);
    assert(v.block_addr(b) + BLOCK_SIZE <= v.block_addr(v.used as int));
    lemma_read_same(w.mem, v.mem, v.block_addr(b) + OFFSET_ADDRESS_KEY, seq![0u8, 0u8, 0u8, 0u8]);
    lemma_read_same(w.mem, v.mem, v.block_addr(b), seq![0u8]);
}

/// The length of a value written under a key no block carried before is the
/// length of the value: a write followed by `size_of_key_value` of its key
/// gives back the length written.
pub proof fn law_size_of_written_value(v: FsView, key: u32, payload: Seq<u8>)
    requires
        key <= crate::layout::MAX_KEY_ID,
        v.find_key(key) is None,
        v.write_ok(key, payload),
        payload.len() > 0 ==> v.block_addr(v.used as int) + OFFSET_ADDRESS_PAYLOAD <= v.mem.len(),
    ensures
        v.write_view(key, payload).value_size(key) == payload.len() as u32,
{
    let w = v.write_view(key, payload);
    let n = chunk_count(payload.len() as int);
    crate::filesystem::lemma_chunks(payload.len() as int, 0);
    crate::filesystem::lemma_find_key_from(v, key, 0);
    if payload.len() == 0 {
        assert(w.used == v.used);
        assert(w.mem == v.mem);
        assert(w =~= v);
    } else {
        lemma_written(v, key, payload, n as nat);
        let a = v.block_addr(v.used as int);
        let img = block_image(v, key, payload, 0);
        lemma_written_block_fields(v.mem, a, key, chunk(payload, 0), true, n == 1, payload.len() as u32);
        assert forall|c: int| 0 <= c < v.used implies !#[trigger] w.holds_key(c, key) by {
            lemma_old_block_same(v, key, payload, c);
            assert(!v.holds_key(c, key));
        }
        assert(w.mem.subrange(a + OFFSET_ADDRESS_KEY, a + OFFSET_ADDRESS_KEY + 4) =~= img.subrange(
            a + OFFSET_ADDRESS_KEY,
            a + OFFSET_ADDRESS_KEY + 4,
        ));
        assert(w.holds_key(v.used as int, key));
        lemma_find_key_at(w, key, v.used as int);
        assert(w.mem.subrange(a + OFFSET_VALUE_SIZE, a + OFFSET_VALUE_SIZE + 4) =~= img.subrange(
            a + OFFSET_VALUE_SIZE,
            a + OFFSET_VALUE_SIZE + 4,
        ));
        crate::layout::lemma_le32_roundtrip(payload.len() as u32);
    }
}

/// Whether `payload` written under `key` reads back into a buffer of
/// `buf_len` bytes: the value is not empty and fits the buffer, every read of
/// the chain stays inside the device and the address space, and no block in
/// use carries a key of the chain.
pub open spec fn read_back_ok(v: FsView, key: u32, payload: Seq<u8>, buf_len: int) -> bool {
    let len = payload.len() as int;
    let n = chunk_count(len);
    let last = v.block_addr(v.used + n - 1);
    let reach = last + OFFSET_ADDRESS_PAYLOAD + buf_len - (n - 1) * PAYLOAD_SIZE;
    &&& key <= crate::layout::MAX_KEY_ID
    &&& 0 < len
    &&& len <= buf_len
    &&& reach <= v.mem.len()
    &&& reach <= u32::MAX
    &&& forall|j: int| 0 <= j < n ==> #[trigger] v.find_key((key + CHAIN_KEY_STRIDE * j) as u32) is None
}

/// Bounds every block of a readable chain meets.
proof fn lemma_read_back_bounds(v: FsView, key: u32, payload: Seq<u8>, buf_len: int, j: int)
    requires
        read_back_ok(v, key, payload, buf_len),
        0 <= j < chunk_count(payload.len() as int),
    ensures
        v.write_ok(key, payload),
        v.block_addr(v.used + j) + OFFSET_ADDRESS_PAYLOAD + buf_len - j * PAYLOAD_SIZE <= v.mem.len(),
        v.block_addr(v.used + j) + OFFSET_ADDRESS_PAYLOAD + buf_len - j * PAYLOAD_SIZE <= u32::MAX,
        j * PAYLOAD_SIZE < payload.len(),
        key + CHAIN_KEY_STRIDE * (j + 1) <= u32::MAX,
        payload.len() <= u32::MAX,
{
    let len = payload.len() as int;
    let n = chunk_count(len);
    crate::filesystem::lemma_chunks(len, j);
    crate::filesystem::lemma_chunks(len, n - 1);
    let last = v.block_addr(v.used + n - 1);
    assert(v.block_addr(v.used + j) - j * PAYLOAD_SIZE <= last - (n - 1) * PAYLOAD_SIZE)
        by (nonlinear_arith)
        requires
            v.block_addr(v.used + j) == v.offset + (v.used + j) * 2048,
            last == v.offset + (v.used + n - 1) * 2048,
            j <= n - 1,
    ;
    assert(v.write_ok(key, payload));
    crate::filesystem::lemma_write_bounds(v, key, payload, j);
}

/// The fields of the `j`-th block of a readable chain after it is written.
proof fn lemma_chain_block(v: FsView, key: u32, payload: Seq<u8>, buf_len: int, j: int)
    requires
        read_back_ok(v, key, payload, buf_len),
        0 <= j < chunk_count(payload.len() as int),
    ensures
        ({
            let w = v.write_view(key, payload);
            let len = payload.len() as int;
            let n = chunk_count(len);
            let a = v.block_addr(v.used + j);
            let clen = chunk_end(len, j) - j * PAYLOAD_SIZE;
            &&& w.key_bytes_at(v.used + j) == le32((key + CHAIN_KEY_STRIDE * j) as u32)
            &&& w.mem.subrange(a + OFFSET_ADDRESS_SIZE, a + OFFSET_ADDRESS_SIZE + 2) == le16(
                clen as u16,
            )
            &&& w.mem.subrange(a + OFFSET_ADDRESS_PAYLOAD, a + OFFSET_ADDRESS_PAYLOAD + clen) == chunk(
                payload,
                j,
            )
            &&& j + 1 < n ==> w.mem.subrange(a + OFFSET_ADDRESS_NEXT, a + OFFSET_ADDRESS_NEXT + 4)
                == le32((key + CHAIN_KEY_STRIDE * (j + 1)) as u32)
            &&& j + 1 == n ==> w.mem.subrange(a + OFFSET_ADDRESS_NEXT, a + OFFSET_ADDRESS_NEXT + 4)
                == le32(CHAIN_END)
            &&& w.mem.len() == v.mem.len()
        }),
{
    let w = v.write_view(key, payload);
    let len = payload.len() as int;
    let n = chunk_count(len);
    let a = v.block_addr(v.used + j);
    let clen = chunk_end(len, j) - j * PAYLOAD_SIZE;
    let bk = (key + CHAIN_KEY_STRIDE * j) as u32;
    let img = block_image(v, key, payload, j);
    lemma_read_back_bounds(v, key, payload, buf_len, j);
    crate::filesystem::lemma_chunks(len, j);
    lemma_written(v, key, payload, n as nat);
    lemma_written_block_fields(v.mem, a, bk, chunk(payload, j), j == 0, j + 1 == n, len as u32);
    assert(chunk(payload, j).len() == clen);
    assert(w.mem.subrange(a + OFFSET_ADDRESS_KEY, a + OFFSET_ADDRESS_KEY + 4) =~= img.subrange(
        a + OFFSET_ADDRESS_KEY,
        a + OFFSET_ADDRESS_KEY + 4,
    ));
    assert(w.mem.subrange(a + OFFSET_ADDRESS_SIZE, a + OFFSET_ADDRESS_SIZE + 2) =~= img.subrange(
        a + OFFSET_ADDRESS_SIZE,
        a + OFFSET_ADDRESS_SIZE + 2,
    ));
    assert(w.mem.subrange(a + OFFSET_ADDRESS_PAYLOAD, a + OFFSET_ADDRESS_PAYLOAD + clen)
        =~= img.subrange(a + OFFSET_ADDRESS_PAYLOAD, a + OFFSET_ADDRESS_PAYLOAD + clen));
    if j + 1 < n {
        assert(clen == PAYLOAD_SIZE);
        assert((bk + CHAIN_KEY_STRIDE) as u32 == (key + CHAIN_KEY_STRIDE * (j + 1)) as u32);
        assert(w.mem.subrange(a + OFFSET_ADDRESS_NEXT, a + OFFSET_ADDRESS_NEXT + 4)
            =~= img.subrange(a + OFFSET_ADDRESS_NEXT, a + OFFSET_ADDRESS_NEXT + 4));
    } else {
        assert(w.mem.subrange(a + OFFSET_ADDRESS_NEXT, a + OFFSET_ADDRESS_NEXT + 4)
            =~= img.subrange(a + OFFSET_ADDRESS_NEXT, a + OFFSET_ADDRESS_NEXT + 4));
    }
}

/// Whether `u` is a state that keeps the chain of `key` holding `payload`
/// as the write of it left it: same region and device size, at least the
/// blocks of the chain in use, the same bytes up to the end of the chain,
/// and the key field of every block in use addressable.
pub open spec fn keeps_chain(v: FsView, key: u32, payload: Seq<u8>, u: FsView) -> bool {
    let w = v.write_view(key, payload);
    let n = chunk_count(payload.len() as int);
    &&& u.offset == v.offset
    &&& u.mem.len() == v.mem.len()
    &&& v.used + n <= u.used
    &&& forall|x: int|
        0 <= x < v.block_addr(v.used + n) && x < v.mem.len() ==> #[trigger] u.mem[x] == w.mem[x]
    &&& u.block_addr(u.used - 1) + OFFSET_ADDRESS_KEY + 4 <= u32::MAX
}

/// The state a sequence of writes leaves, each `(key, payload)` written in turn.
pub open spec fn writes_view(v: FsView, writes: Seq<(u32, Seq<u8>)>) -> FsView
    decreases writes.len(),
{
    if writes.len() == 0 {
        v
    } else {
        let prev = writes_view(v, writes.drop_last());
        prev.write_view(writes.last().0, writes.last().1)
    }
}

/// Whether each write of a sequence computes no address past `u32::MAX`.
pub open spec fn writes_ok(v: FsView, writes: Seq<(u32, Seq<u8>)>) -> bool
    decreases writes.len(),
{
    writes.len() == 0 || (writes_ok(v, writes.drop_last()) && writes_view(
        v,
        writes.drop_last(),
    ).write_ok(writes.last().0, writes.last().1))
}

/// The state right after a readable chain is written keeps it.
proof fn lemma_keeps_chain_written(v: FsView, key: u32, payload: Seq<u8>, buf_len: int)
    requires
        read_back_ok(v, key, payload, buf_len),
    ensures
        keeps_chain(v, key, payload, v.write_view(key, payload)),
{
    let len = payload.len() as int;
    let n = chunk_count(len);
    lemma_read_back_bounds(v, key, payload, buf_len, n - 1);
    crate::filesystem::lemma_chunks(len, n - 1);
    lemma_written(v, key, payload, n as nat);
}

/// A further write keeps a kept chain.
proof fn lemma_keeps_chain_write(
    v: FsView,
    key: u32,
    payload: Seq<u8>,
    u: FsView,
    key2: u32,
    payload2: Seq<u8>,
)
    requires
        keeps_chain(v, key, payload, u),
        u.write_ok(key2, payload2),
    ensures
        keeps_chain(v, key, payload, u.write_view(key2, payload2)),
{
    let u2 = u.write_view(key2, payload2);
    let n = chunk_count(payload.len() as int);
    let n2 = chunk_count(payload2.len() as int);
    if key2 <= crate::layout::MAX_KEY_ID && payload2.len() > 0 {
        crate::filesystem::lemma_chunks(payload2.len() as int, n2 - 1);
        lemma_written(u, key2, payload2, n2 as nat);
        assert(v.block_addr(v.used + n) <= u.block_addr(u.used as int));
        crate::filesystem::lemma_write_bounds(u, key2, payload2, n2 - 1);
        assert(u2.block_addr(u2.used - 1) == u.block_addr(u.used + n2 - 1));
    } else if key2 <= crate::layout::MAX_KEY_ID {
        crate::filesystem::lemma_chunks(payload2.len() as int, 0);
        assert(u2.mem == u.mem);
    }
}

/// Every lookup in a state that keeps a chain is addressable.
proof fn lemma_keeps_chain_scan_ok(v: FsView, key: u32, payload: Seq<u8>, u: FsView, k: u32)
    requires
        keeps_chain(v, key, payload, u),
    ensures
        u.key_scan_ok(k),
{
    assert forall|b: int|
        0 <= b < u.used && (!u.reliable || u.no_key_before(k, b)) implies #[trigger] u.block_addr(b)
        + OFFSET_ADDRESS_KEY + 4 <= u32::MAX by {
        assert(u.block_addr(b) <= u.block_addr(u.used - 1));
    }
}

/// In a state that keeps a readable chain, each key of the chain is first
/// found at its block.
proof fn lemma_chain_find(
    v: FsView,
    key: u32,
    payload: Seq<u8>,
    buf_len: int,
    u: FsView,
    j: int,
)
    requires
        read_back_ok(v, key, payload, buf_len),
        keeps_chain(v, key, payload, u),
        0 <= j < chunk_count(payload.len() as int),
    ensures
        u.find_key((key + CHAIN_KEY_STRIDE * j) as u32) == Some((v.used + j) as nat),
{
    let w = v.write_view(key, payload);
    let len = payload.len() as int;
    let n = chunk_count(len);
    let k = (key + CHAIN_KEY_STRIDE * j) as u32;
    lemma_read_back_bounds(v, key, payload, buf_len, j);
    lemma_chain_block(v, key, payload, buf_len, j);
    crate::filesystem::lemma_chunks(len, 0);
    assert(v.find_key(k) is None);
    crate::filesystem::lemma_find_key_from(v, k, 0);
    assert forall|c: int| 0 <= c <= v.used + j implies u.key_bytes_at(c) == w.key_bytes_at(c) by {
        assert(v.block_addr(c) + BLOCK_SIZE <= v.block_addr(v.used + n));
        lemma_read_same(u.mem, w.mem, u.block_addr(c) + OFFSET_ADDRESS_KEY, seq![0u8, 0u8, 0u8, 0u8]);
    }
    assert forall|c: int| 0 <= c < v.used + j implies !#[trigger] u.holds_key(c, k) by {
        assert(u.key_bytes_at(c) == w.key_bytes_at(c));
        if c < v.used {
            lemma_old_block_same(v, key, payload, c);
            assert(!v.holds_key(c, k));
        } else {
            let m = c - v.used;
            lemma_read_back_bounds(v, key, payload, buf_len, m);
            lemma_chain_block(v, key, payload, buf_len, m);
            if le32((key + CHAIN_KEY_STRIDE * m) as u32) == le32(k) {
                crate::layout::lemma_le32_injective((key + CHAIN_KEY_STRIDE * m) as u32, k);
            }
        }
    }
    assert(u.key_bytes_at(v.used + j) == w.key_bytes_at(v.used + j));
    lemma_find_key_at(u, k, v.used + j);
}

/// In a state that keeps a readable chain, reading it from its `j`-th block
/// on, with the first `j` chunks already in the buffer, ends with the whole
/// value in the buffer.
proof fn lemma_walk_chain(
    v: FsView,
    key: u32,
    payload: Seq<u8>,
    buf_len: int,
    u: FsView,
    j: int,
    c: crate::filesystem::ReadCursor,
)
    requires
        read_back_ok(v, key, payload, buf_len),
        keeps_chain(v, key, payload, u),
        0 <= j < chunk_count(payload.len() as int),
        c.addr == v.block_addr(v.used + j),
        c.got == j * PAYLOAD_SIZE,
        c.buf.len() == buf_len,
        c.buf.take(j * PAYLOAD_SIZE) == payload.take(j * PAYLOAD_SIZE),
        c.size_bytes.len() == 2,
        c.next_bytes.len() == 4,
    ensures
        ({
            let r = u.read_walk(c, (chunk_count(payload.len() as int) - j) as nat);
            &&& r is Some
            &&& r.unwrap().0 == Ok::<u32, crate::filesystem::WeirdoFileSystemError>(
                payload.len() as u32,
            )
            &&& r.unwrap().1.take(payload.len() as int) == payload
        }),
    decreases chunk_count(payload.len() as int) - j,
{
    let w = v.write_view(key, payload);
    let len = payload.len() as int;
    let n = chunk_count(len);
    let a = v.block_addr(v.used + j);
    let p = PAYLOAD_SIZE as int;
    let clen = chunk_end(len, j) - j * p;
    lemma_read_back_bounds(v, key, payload, buf_len, j);
    lemma_chain_block(v, key, payload, buf_len, j);
    crate::filesystem::lemma_chunks(len, j);
    assert(a + BLOCK_SIZE <= v.block_addr(v.used + n));
    assert(u.mem.subrange(a + OFFSET_ADDRESS_SIZE, a + OFFSET_ADDRESS_SIZE + 2) =~= w.mem.subrange(
        a + OFFSET_ADDRESS_SIZE,
        a + OFFSET_ADDRESS_SIZE + 2,
    ));
    assert(u.mem.subrange(a + OFFSET_ADDRESS_NEXT, a + OFFSET_ADDRESS_NEXT + 4) =~= w.mem.subrange(
        a + OFFSET_ADDRESS_NEXT,
        a + OFFSET_ADDRESS_NEXT + 4,
    ));
    assert(u.mem.subrange(a + OFFSET_ADDRESS_PAYLOAD, a + OFFSET_ADDRESS_PAYLOAD + clen)
        =~= w.mem.subrange(a + OFFSET_ADDRESS_PAYLOAD, a + OFFSET_ADDRESS_PAYLOAD + clen));
    assert(u.read_step_ok(c));
    let d = u.read_step(c);
    crate::layout::lemma_le16_roundtrip(clen as u16);
    assert(d.size_bytes =~= le16(clen as u16));
    assert(d.got == chunk_end(len, j));
    assert(d.next_bytes =~= w.mem.subrange(a + OFFSET_ADDRESS_NEXT, a + OFFSET_ADDRESS_NEXT + 4));
    let got2 = chunk_end(len, j);
    assert(d.buf.take(got2) =~= payload.take(got2)) by {
        assert forall|x: int| 0 <= x < got2 implies d.buf[x] == payload[x] by {
            if x < j * p {
                assert(c.buf.take(j * p)[x] == payload.take(j * p)[x]);
            } else {
                assert(u.mem.subrange(a + OFFSET_ADDRESS_PAYLOAD, a + OFFSET_ADDRESS_PAYLOAD + clen)[x
                    - j * p] == chunk(payload, j)[x - j * p]);
            }
        }
    }
    if j + 1 == n {
        crate::layout::lemma_le32_roundtrip(CHAIN_END);
        assert(got2 == len);
    } else {
        let k = (key + CHAIN_KEY_STRIDE * (j + 1)) as u32;
        crate::layout::lemma_le32_roundtrip(k);
        assert(crate::layout::from_le32(d.next_bytes) == k);
        lemma_read_back_bounds(v, key, payload, buf_len, j + 1);
        assert(k != CHAIN_END);
        lemma_keeps_chain_scan_ok(v, key, payload, u, k);
        lemma_chain_find(v, key, payload, buf_len, u, j + 1);
        crate::filesystem::lemma_chunks(len, j + 1);
        let c2 = crate::filesystem::ReadCursor { addr: u.block_addr(v.used + j + 1), ..d };
        assert(got2 == (j + 1) * p);
        lemma_walk_chain(v, key, payload, buf_len, u, j + 1, c2);
    }
}

/// In a state that keeps a readable chain, reading its key succeeds with the
/// length of the value and leaves the value at the start of the buffer.
proof fn lemma_read_kept_chain(v: FsView, key: u32, payload: Seq<u8>, buf: Seq<u8>, u: FsView)
    requires
        read_back_ok(v, key, payload, buf.len() as int),
        keeps_chain(v, key, payload, u),
    ensures
        u.read_ok(key, buf),
        u.read_result(key, buf).0 == Ok::<u32, crate::filesystem::WeirdoFileSystemError>(
            payload.len() as u32,
        ),
        u.read_result(key, buf).1.take(payload.len() as int) == payload,
{
    let len = payload.len() as int;
    let n = chunk_count(len);
    crate::filesystem::lemma_chunks(len, 0);
    lemma_chain_find(v, key, payload, buf.len() as int, u, 0);
    assert((key + CHAIN_KEY_STRIDE * 0) as u32 == key);
    lemma_keeps_chain_scan_ok(v, key, payload, u, key);
    let start = u.read_start(key, buf);
    assert(start.buf.take(0) =~= payload.take(0));
    lemma_walk_chain(v, key, payload, buf.len() as int, u, 0, start);
    assert(u.read_walk(start, n as nat) is Some);
    let f = choose|f: nat| #[trigger] u.read_walk(start, f) is Some;
    if f <= n {
        crate::filesystem::lemma_read_walk_fuel(u, start, f, n as nat);
    } else {
        crate::filesystem::lemma_read_walk_fuel(u, start, n as nat, f);
    }
}

/// What a write stores, a read gives back: after `payload` is written under
/// a key that no block carried (nor any key of its chain), reading the key
/// into a buffer at least as long as the value succeeds with the length of
/// the value and leaves the value at the start of the buffer.
pub proof fn law_read_back_written_value(v: FsView, key: u32, payload: Seq<u8>, buf: Seq<u8>)
    requires
        read_back_ok(v, key, payload, buf.len() as int),
    ensures
        ({
            let w = v.write_view(key, payload);
            &&& w.read_ok(key, buf)
            &&& w.read_result(key, buf).0 == Ok::<u32, crate::filesystem::WeirdoFileSystemError>(
                payload.len() as u32,
            )
            &&& w.read_result(key, buf).1.take(payload.len() as int) == payload
        }),
{
    lemma_keeps_chain_written(v, key, payload, buf.len() as int);
    lemma_read_kept_chain(v, key, payload, buf, v.write_view(key, payload));
}

/// Later writes do not disturb a stored value: after `payload` is written as
/// in `law_read_back_written_value`, any sequence of further writes (under any
/// keys, the same key included) leaves reading the key giving back `payload`.
pub proof fn law_value_survives_later_writes(
    v: FsView,
    key: u32,
    payload: Seq<u8>,
    buf: Seq<u8>,
    later: Seq<(u32, Seq<u8>)>,
)
    requires
        read_back_ok(v, key, payload, buf.len() as int),
        writes_ok(v.write_view(key, payload), later),
    ensures
        ({
            let u = writes_view(v.write_view(key, payload), later);
            &&& u.read_ok(key, buf)
            &&& u.read_result(key, buf).0 == Ok::<u32, crate::filesystem::WeirdoFileSystemError>(
                payload.len() as u32,
            )
            &&& u.read_result(key, buf).1.take(payload.len() as int) == payload
        }),
{
    lemma_keeps_chain_writes(v, key, payload, buf.len() as int, later);
    lemma_read_kept_chain(
        v,
        key,
        payload,
        buf,
        writes_view(v.write_view(key, payload), later),
    );
}

/// Any sequence of further writes keeps a readable chain.
proof fn lemma_keeps_chain_writes(
    v: FsView,
    key: u32,
    payload: Seq<u8>,
    buf_len: int,
    later: Seq<(u32, Seq<u8>)>,
)
    requires
        read_back_ok(v, key, payload, buf_len),
        writes_ok(v.write_view(key, payload), later),
    ensures
        keeps_chain(v, key, payload, writes_view(v.write_view(key, payload), later)),
    decreases later.len(),
{
    let w = v.write_view(key, payload);
    if later.len() == 0 {
        lemma_keeps_chain_written(v, key, payload, buf_len);
    } else {
        lemma_keeps_chain_writes(v, key, payload, buf_len, later.drop_last());
        lemma_keeps_chain_write(
            v,
            key,
            payload,
            writes_view(w, later.drop_last()),
            later.last().0,
            later.last().1,
        );
    }
}

/// Marking blocks `0..n` empty leaves the status byte of block 0 empty,
/// wherever block 0 lies inside the device.
proof fn lemma_formatted_first(v: FsView, n: nat)
    requires
        n >= 1,
        0 <= v.block_addr(0),
        v.block_addr(0) + 1 <= v.mem.len(),
    ensures
        v.formatted(n).len() == v.mem.len(),
        v.formatted(n)[v.block_addr(0)] == status_byte(BlockStatus::Empty),
    decreases n,
{
    let prev = v.formatted((n - 1) as nat);
    if n > 1 {
        lemma_formatted_first(v, (n - 1) as nat);
        assert(v.block_addr(n - 1) >= v.block_addr(0) + BLOCK_SIZE);
    } else {
        assert(prev == v.mem);
    }
    assert(v.formatted(n) == write_at(
        prev,
        v.block_addr(n - 1),
        seq![status_byte(BlockStatus::Empty)],
    ));
}

/// Formatting empties the filesystem: afterwards no block is in use and
/// every block of the region is free, provided the first block lies inside
/// the device.
pub proof fn law_format_frees_all_blocks(v: FsView)
    requires
        v.total == v.size / (BLOCK_SIZE as u32),
        v.total > 0 ==> v.block_addr(0) + 1 <= v.mem.len(),
    ensures
        v.format_view().used == 0,
        v.format_view().total == v.total,
{
    let f = FsView { mem: v.formatted(v.total as nat), ..v };
    let t = f.with_total();
    if v.total > 0 {
        lemma_formatted_first(v, v.total as nat);
        assert(t.status_at(0) == status_byte(BlockStatus::Empty));
    }
}

/// A block a write puts a chunk in is marked occupied, wherever its first
/// bytes lie inside the device.
proof fn lemma_new_block_occupied(v: FsView, key: u32, payload: Seq<u8>, j: int)
    requires
        key <= crate::layout::MAX_KEY_ID,
        0 <= j < chunk_count(payload.len() as int),
        v.block_addr(v.used + j) + OFFSET_ADDRESS_PAYLOAD <= v.mem.len(),
    ensures
        v.write_view(key, payload).status_at(v.used + j) == status_byte(BlockStatus::Occupied),
{
    let w = v.write_view(key, payload);
    let len = payload.len() as int;
    let n = chunk_count(len);
    let a = v.block_addr(v.used + j);
    crate::filesystem::lemma_chunks(len, j);
    lemma_written(v, key, payload, n as nat);
    lemma_written_block_fields(
        v.mem,
        a,
        (key + CHAIN_KEY_STRIDE * j) as u32,
        chunk(payload, j),
        j == 0,
        j + 1 == n,
        len as u32,
    );
    assert(w.mem[a] == block_image(v, key, payload, j)[a]);
    assert(w.mem.subrange(a, a + 1) =~= seq![w.mem[a]]);
}

/// Rebuilding the cache after writes finds the count the writes kept: when
/// the count of used blocks agreed with the device before a write, the blocks
/// of the write lie inside the region and the device, and the block after
/// them is empty (or the region ends there), the count after the write
/// agrees with the device as well.
pub proof fn law_rebuild_agrees_after_write(v: FsView, key: u32, payload: Seq<u8>)
    requires
        key <= crate::layout::MAX_KEY_ID,
        v.total == v.size / (BLOCK_SIZE as u32),
        v.used == v.rebuilt().used,
        v.used + chunk_count(payload.len() as int) <= v.total,
        v.used + chunk_count(payload.len() as int) < v.total ==> v.status_at(
            v.used + chunk_count(payload.len() as int),
        ) == status_byte(BlockStatus::Empty),
        chunk_count(payload.len() as int) > 0 ==> v.block_addr(
            v.used + chunk_count(payload.len() as int) - 1,
        ) + OFFSET_ADDRESS_PAYLOAD <= v.mem.len(),
    ensures
        v.write_view(key, payload).rebuilt().used == v.write_view(key, payload).used,
{
    let w = v.write_view(key, payload);
    let len = payload.len() as int;
    let n = chunk_count(len);
    crate::filesystem::lemma_chunks(len, 0);
    let vt = v.with_total();
    let t = w.with_total();
    crate::filesystem::lemma_first_empty_from(vt, 0);
    crate::filesystem::lemma_first_empty_from(t, 0);
    lemma_written(v, key, payload, n as nat);
    let r = t.first_empty_from(0);
    let e = status_byte(BlockStatus::Empty);
    assert forall|c: int| 0 <= c < v.used + n implies #[trigger] t.status_at(c) != e by {
        if c < v.used {
            lemma_old_block_same(v, key, payload, c);
            assert(vt.status_at(c) != e);
        } else {
            assert(v.block_addr(c) <= v.block_addr(v.used + n - 1));
            lemma_new_block_occupied(v, key, payload, c - v.used);
        }
    }
    if v.used + n < v.total {
        let a = v.block_addr(v.used + n);
        lemma_read_same(w.mem, v.mem, a, seq![0u8]);
        assert(t.status_at(v.used + n) == e);
    }
    if r < v.used + n {
        assert(t.status_at(r as int) != e);
    }
    if r > v.used + n {
        assert(t.status_at(v.used + n) != e);
    }
}

/// A write touches only the blocks from the first unused one on: every byte
/// before that block is as it was.
pub proof fn law_write_keeps_earlier_bytes(v: FsView, key: u32, payload: Seq<u8>, x: int)
    requires
        0 <= x < v.mem.len(),
        x < v.block_addr(v.used as int),
    ensures
        v.write_view(key, payload).mem.len() == v.mem.len(),
        v.write_view(key, payload).mem[x] == v.mem[x],
{
    if key <= crate::layout::MAX_KEY_ID {
        let n = chunk_count(payload.len() as int);
        crate::filesystem::lemma_chunks(payload.len() as int, 0);
        lemma_written(v, key, payload, n as nat);
    }
}

/// Rebuilding the cache twice finds what rebuilding it once found.
pub proof fn law_rebuild_idempotent(v: FsView)
    ensures
        v.rebuilt().rebuilt() == v.rebuilt(),
{
    assert(v.rebuilt().with_total() == v.with_total());
}

/// Whether the blocks a write of `payload` under `key` uses lie inside the
/// device: the last byte of its last chunk is a byte of the device.
pub open spec fn write_in_device(v: FsView, key: u32, payload: Seq<u8>) -> bool {
    let n = chunk_count(payload.len() as int);
    ||| key > crate::layout::MAX_KEY_ID
    ||| payload.len() == 0
    ||| v.block_addr(v.used + n - 1) + OFFSET_ADDRESS_PAYLOAD + chunk_end(
        payload.len() as int,
        n - 1,
    ) - (n - 1) * PAYLOAD_SIZE <= v.mem.len()
}

/// Whether each write of a sequence lies inside the device.
pub open spec fn writes_in_device(v: FsView, writes: Seq<(u32, Seq<u8>)>) -> bool
    decreases writes.len(),
{
    writes.len() == 0 || (writes_in_device(v, writes.drop_last()) && write_in_device(
        writes_view(v, writes.drop_last()),
        writes.last().0,
        writes.last().1,
    ))
}

/// Two chain keys of keys up to 999 are equal only for the same key and the
/// same place in the chain.
proof fn lemma_chain_keys_distinct(k1: int, i1: int, k2: int, i2: int)
    requires
        0 <= k1 <= crate::layout::MAX_KEY_ID,
        0 <= k2 <= crate::layout::MAX_KEY_ID,
        0 <= i1,
        0 <= i2,
        k1 + CHAIN_KEY_STRIDE * i1 == k2 + CHAIN_KEY_STRIDE * i2,
    ensures
        k1 == k2,
        i1 == i2,
{
    assert(k1 == k2 && i1 == i2) by (nonlinear_arith)
        requires
            0 <= k1 <= 999,
            0 <= k2 <= 999,
            0 <= i1,
            0 <= i2,
            k1 + 1000 * i1 == k2 + 1000 * i2,
    ;
}

/// A write inside the device under one key adds no block carrying a chain
/// key of another key: a chain key no block carried before stays absent.
proof fn lemma_write_keeps_chain_key_absent(v: FsView, key: u32, payload: Seq<u8>, k: u32, i: int)
    requires
        v.write_ok(key, payload),
        write_in_device(v, key, payload),
        k <= crate::layout::MAX_KEY_ID,
        k != key || payload.len() == 0,
        0 <= i,
        k + CHAIN_KEY_STRIDE * i <= u32::MAX,
        v.find_key((k + CHAIN_KEY_STRIDE * i) as u32) is None,
    ensures
        v.write_view(key, payload).find_key((k + CHAIN_KEY_STRIDE * i) as u32) is None,
{
    let w = v.write_view(key, payload);
    let x = (k + CHAIN_KEY_STRIDE * i) as u32;
    crate::filesystem::lemma_find_key_from(v, x, 0);
    if key <= crate::layout::MAX_KEY_ID {
        let len = payload.len() as int;
        let n = chunk_count(len);
        crate::filesystem::lemma_chunks(len, 0);
        if n == 0 {
            assert(w.mem == v.mem);
            assert(w =~= v);
        } else {
            lemma_written(v, key, payload, n as nat);
            assert forall|c: int| 0 <= c < w.used implies !#[trigger] w.holds_key(c, x) by {
                if c < v.used {
                    lemma_old_block_same(v, key, payload, c);
                    assert(!v.holds_key(c, x));
                } else {
                    let j = c - v.used;
                    crate::filesystem::lemma_write_bounds(v, key, payload, j);
                    crate::filesystem::lemma_write_bounds(v, key, payload, n - 1);
                    crate::filesystem::lemma_chunks(len, j);
                    let a = v.block_addr(c);
                    let bk = (key + CHAIN_KEY_STRIDE * j) as u32;
                    assert(a <= v.block_addr(v.used + n - 1));
                    lemma_written_block_fields(
                        v.mem,
                        a,
                        bk,
                        chunk(payload, j),
                        j == 0,
                        j + 1 == n,
                        len as u32,
                    );
                    assert(w.mem.subrange(a + OFFSET_ADDRESS_KEY, a + OFFSET_ADDRESS_KEY + 4)
                        =~= block_image(v, key, payload, j).subrange(
                        a + OFFSET_ADDRESS_KEY,
                        a + OFFSET_ADDRESS_KEY + 4,
                    ));
                    assert(w.key_bytes_at(c) == le32(bk));
                    if le32(bk) == le32(x) {
                        crate::layout::lemma_le32_injective(bk, x);
                        lemma_chain_keys_distinct(key as int, j, k as int, i);
                    }
                }
            }
            crate::filesystem::lemma_find_key_from(w, x, 0);
        }
    }
}

/// A format leaves no block in use, provided the first block lies inside
/// the device, so no key is found afterwards.
proof fn lemma_format_finds_nothing(v: FsView, x: u32)
    requires
        v.total == v.size / (BLOCK_SIZE as u32),
        v.total > 0 ==> v.block_addr(0) + 1 <= v.mem.len(),
    ensures
        v.format_view().find_key(x) is None,
{
    law_format_frees_all_blocks(v);
}

/// Keys no write touched are absent: after a format and a sequence of
/// writes inside the device, no block carries a key, or a chain key of a
/// key, that none of the writes was under. So a key not yet written meets
/// the conditions of `law_read_back_written_value` and
/// `law_size_of_written_value` on which no block carries it.
pub proof fn law_unwritten_key_absent(
    v: FsView,
    writes: Seq<(u32, Seq<u8>)>,
    k: u32,
    i: int,
)
    requires
        v.total == v.size / (BLOCK_SIZE as u32),
        v.total > 0 ==> v.block_addr(0) + 1 <= v.mem.len(),
        writes_ok(v.format_view(), writes),
        writes_in_device(v.format_view(), writes),
        k <= crate::layout::MAX_KEY_ID,
        forall|m: int| 0 <= m < writes.len() ==> (#[trigger] writes[m]).0 != k || writes[m].1.len() == 0,
        0 <= i,
        k + CHAIN_KEY_STRIDE * i <= u32::MAX,
    ensures
        writes_view(v.format_view(), writes).find_key((k + CHAIN_KEY_STRIDE * i) as u32) is None,
    decreases writes.len(),
{
    if writes.len() == 0 {
        lemma_format_finds_nothing(v, (k + CHAIN_KEY_STRIDE * i) as u32);
    } else {
        let prev = writes.drop_last();
        assert forall|m: int| 0 <= m < prev.len() implies (#[trigger] prev[m]).0 != k || prev[m].1.len()
            == 0 by {
            assert(prev[m] == writes[m]);
        }
        law_unwritten_key_absent(v, prev, k, i);
        assert(writes.last() == writes[writes.len() - 1]);
        lemma_write_keeps_chain_key_absent(
            writes_view(v.format_view(), prev),
            writes.last().0,
            writes.last().1,
            k,
            i,
        );
    }
}

/// A write under one key leaves the length another key reports unchanged,
/// provided the write lies inside the device.
pub proof fn law_write_keeps_other_sizes(v: FsView, key: u32, payload: Seq<u8>, k: u32)
    requires
        v.write_ok(key, payload),
        write_in_device(v, key, payload),
        k <= crate::layout::MAX_KEY_ID,
        k != key,
    ensures
        v.write_view(key, payload).value_size(k) == v.value_size(k),
{
    let w = v.write_view(key, payload);
    assert((k + CHAIN_KEY_STRIDE * 0) as u32 == k);
    crate::filesystem::lemma_find_key_from(v, k, 0);
    if key <= crate::layout::MAX_KEY_ID {
        let n = chunk_count(payload.len() as int);
        crate::filesystem::lemma_chunks(payload.len() as int, 0);
        lemma_written(v, key, payload, n as nat);
        match v.find_key(k) {
            None => {
                lemma_write_keeps_chain_key_absent(v, key, payload, k, 0);
            },
            Some(b) => {
                assert forall|c: int| 0 <= c < b implies !#[trigger] w.holds_key(c, k) by {
                    lemma_old_block_same(v, key, payload, c);
                }
                lemma_old_block_same(v, key, payload, b as int);
                lemma_find_key_at(w, k, b as int);
                let a = v.block_addr(b as int) + crate::layout::OFFSET_VALUE_SIZE;
                assert(v.block_addr(b as int) + BLOCK_SIZE <= v.block_addr(v.used as int));
                lemma_read_same(w.mem, v.mem, a, seq![0u8, 0u8, 0u8, 0u8]);
            },
        }
    }
}

/// What a write stores, a read gives back, from a formatted filesystem on:
/// after a format and a sequence of writes inside the device, none of them
/// under `key`, writing a non-empty `payload` under `key` and then reading
/// `key` into a buffer at least as long succeeds with the length of the value
/// and leaves the value at the start of the buffer, wherever the reads of
/// the chain stay inside the device and the address space.
pub proof fn law_read_back_fresh_key(
    v: FsView,
    writes: Seq<(u32, Seq<u8>)>,
    key: u32,
    payload: Seq<u8>,
    buf: Seq<u8>,
)
    requires
        v.total == v.size / (BLOCK_SIZE as u32),
        v.total > 0 ==> v.block_addr(0) + 1 <= v.mem.len(),
        writes_ok(v.format_view(), writes),
        writes_in_device(v.format_view(), writes),
        forall|m: int|
            0 <= m < writes.len() ==> (#[trigger] writes[m]).0 != key || writes[m].1.len() == 0,
        key <= crate::layout::MAX_KEY_ID,
        0 < payload.len() <= buf.len(),
        ({
            let u = writes_view(v.format_view(), writes);
            let n = chunk_count(payload.len() as int);
            let reach = u.block_addr(u.used + n - 1) + OFFSET_ADDRESS_PAYLOAD + buf.len() - (n - 1)
                * PAYLOAD_SIZE;
            &&& reach <= u.mem.len()
            &&& reach <= u32::MAX
        }),
    ensures
        ({
            let w = writes_view(v.format_view(), writes).write_view(key, payload);
            &&& w.read_ok(key, buf)
            &&& w.read_result(key, buf).0 == Ok::<u32, crate::filesystem::WeirdoFileSystemError>(
                payload.len() as u32,
            )
            &&& w.read_result(key, buf).1.take(payload.len() as int) == payload
        }),
{
    lemma_fresh_read_back_ok(v, writes, key, payload, buf.len() as int);
    law_read_back_written_value(writes_view(v.format_view(), writes), key, payload, buf);
}

/// A value written under a key none of the writes since a format was under
/// is readable: `read_back_ok` holds of it.
proof fn lemma_fresh_read_back_ok(
    v: FsView,
    writes: Seq<(u32, Seq<u8>)>,
    key: u32,
    payload: Seq<u8>,
    buf_len: int,
)
    requires
        v.total == v.size / (BLOCK_SIZE as u32),
        v.total > 0 ==> v.block_addr(0) + 1 <= v.mem.len(),
        writes_ok(v.format_view(), writes),
        writes_in_device(v.format_view(), writes),
        forall|m: int|
            0 <= m < writes.len() ==> (#[trigger] writes[m]).0 != key || writes[m].1.len() == 0,
        key <= crate::layout::MAX_KEY_ID,
        0 < payload.len() <= buf_len,
        ({
            let u = writes_view(v.format_view(), writes);
            let n = chunk_count(payload.len() as int);
            let reach = u.block_addr(u.used + n - 1) + OFFSET_ADDRESS_PAYLOAD + buf_len - (n - 1)
                * PAYLOAD_SIZE;
            &&& reach <= u.mem.len()
            &&& reach <= u32::MAX
        }),
    ensures
        read_back_ok(writes_view(v.format_view(), writes), key, payload, buf_len),
{
    let u = writes_view(v.format_view(), writes);
    let len = payload.len() as int;
    let n = chunk_count(len);
    crate::filesystem::lemma_chunks(len, n - 1);
    assert(chunk_end(len, n - 1) - (n - 1) * PAYLOAD_SIZE <= buf_len - (n - 1) * PAYLOAD_SIZE);
    assert(u.write_ok(key, payload));
    assert forall|j: int| 0 <= j < n implies #[trigger] u.find_key(
        (key + CHAIN_KEY_STRIDE * j) as u32,
    ) is None by {
        crate::filesystem::lemma_write_bounds(u, key, payload, j);
        law_unwritten_key_absent(v, writes, key, j);
    }
}

/// Every value written since a format stays readable: after a format,
/// writes inside the device none of which is under `key`, a write of
/// `payload` under `key` and any further writes (under any keys), reading
/// `key` succeeds with the length of `payload` and leaves `payload` at the
/// start of the buffer, wherever the reads of its chain stay inside the
/// device and the address space. In particular a write under another key
/// leaves what reading `key` gives unchanged.
pub proof fn law_written_value_stays_readable(
    v: FsView,
    before: Seq<(u32, Seq<u8>)>,
    key: u32,
    payload: Seq<u8>,
    later: Seq<(u32, Seq<u8>)>,
    buf: Seq<u8>,
)
    requires
        v.total == v.size / (BLOCK_SIZE as u32),
        v.total > 0 ==> v.block_addr(0) + 1 <= v.mem.len(),
        writes_ok(v.format_view(), before),
        writes_in_device(v.format_view(), before),
        forall|m: int|
            0 <= m < before.len() ==> (#[trigger] before[m]).0 != key || before[m].1.len() == 0,
        key <= crate::layout::MAX_KEY_ID,
        0 < payload.len() <= buf.len(),
        ({
            let u = writes_view(v.format_view(), before);
            let n = chunk_count(payload.len() as int);
            let reach = u.block_addr(u.used + n - 1) + OFFSET_ADDRESS_PAYLOAD + buf.len() - (n - 1)
                * PAYLOAD_SIZE;
            &&& reach <= u.mem.len()
            &&& reach <= u32::MAX
        }),
        writes_ok(writes_view(v.format_view(), before).write_view(key, payload), later),
    ensures
        ({
            let z = writes_view(writes_view(v.format_view(), before).write_view(key, payload), later);
            &&& z.read_ok(key, buf)
            &&& z.read_result(key, buf).0 == Ok::<u32, crate::filesystem::WeirdoFileSystemError>(
                payload.len() as u32,
            )
            &&& z.read_result(key, buf).1.take(payload.len() as int) == payload
        }),
{
    lemma_fresh_read_back_ok(v, before, key, payload, buf.len() as int);
    law_value_survives_later_writes(
        writes_view(v.format_view(), before),
        key,
        payload,
        buf,
        later,
    );
}

/// Whether `x` is the address of none of the status bytes of blocks `0..n`.
pub open spec fn no_status_addr(v: FsView, n: int, x: int) -> bool {
    forall|b: int| 0 <= b < n ==> x != #[trigger] v.block_addr(b)
}

/// Marking blocks `0..n` empty sets their status bytes inside the device to
/// empty and leaves every other byte as it was.
proof fn lemma_formatted(v: FsView, n: nat)
    ensures
        v.formatted(n).len() == v.mem.len(),
        forall|b: int|
            0 <= b < n && v.block_addr(b) + 1 <= v.mem.len() ==> v.formatted(n)[#[trigger] v.block_addr(
                b,
            )] == status_byte(BlockStatus::Empty),
        forall|x: int|
            0 <= x < v.mem.len() && no_status_addr(v, n as int, x) ==> #[trigger] v.formatted(n)[x]
                == v.mem[x],
    decreases n,
{
    if n > 0 {
        let k = (n - 1) as nat;
        lemma_formatted(v, k);
        let prev = v.formatted(k);
        let a = v.block_addr(k as int);
        assert(v.formatted(n) == write_at(prev, a, seq![status_byte(BlockStatus::Empty)]));
        assert forall|b: int|
            0 <= b < n && v.block_addr(b) + 1 <= v.mem.len() implies v.formatted(n)[#[trigger] v.block_addr(
            b,
        )] == status_byte(BlockStatus::Empty) by {
            if b < k {
                assert(v.block_addr(b) + BLOCK_SIZE <= a);
            }
        }
        assert forall|x: int| 0 <= x < v.mem.len() && no_status_addr(v, n as int, x) implies #[trigger] v.formatted(n)[x]
            == v.mem[x] by {
            assert(x != v.block_addr(k as int));
            assert(no_status_addr(v, k as int, x));
        }
    }
}

/// Formatting twice is formatting once: a second format, right after a
/// first, changes neither the device nor the block counts.
pub proof fn law_format_twice(v: FsView)
    requires
        v.total == v.size / (BLOCK_SIZE as u32),
    ensures
        v.format_view().format_view() == v.format_view(),
{
    let n = v.total as nat;
    let x0 = FsView { mem: v.formatted(n), ..v };
    let v1 = v.format_view();
    assert(v1 == x0.rebuilt());
    assert(v1.total == v.total);
    lemma_formatted(v, n);
    lemma_formatted(v1, n);
    assert forall|x: int| 0 <= x < v1.mem.len() implies v1.formatted(n)[x] == v1.mem[x] by {
        if no_status_addr(v, n as int, x) {
            assert(v1.offset == v.offset);
            assert forall|b: int| 0 <= b < n implies x != #[trigger] v1.block_addr(b) by {
                assert(v1.block_addr(b) == v.block_addr(b));
            }
            assert(no_status_addr(v1, n as int, x));
        } else {
            let b = choose|b: int| 0 <= b < n && x == #[trigger] v.block_addr(b);
            assert(v1.block_addr(b) == v.block_addr(b));
        }
    }
    assert(v1.formatted(n) =~= v1.mem);
    assert(FsView { mem: v1.formatted(n), ..v1 } == v1);
    law_rebuild_idempotent(x0);
}

/// Whether every block of the region from the first unused one on has its
/// status byte, where it lies inside the device, marked empty.
pub open spec fn tail_empty(v: FsView) -> bool {
    forall|b: int|
        v.used <= b < v.total && v.block_addr(b) + 1 <= v.mem.len() ==> #[trigger] v.status_at(b)
            == status_byte(BlockStatus::Empty)
}

/// The state after a format and a sequence of writes, with the facts the
/// rebuild law carries from one write to the next.
proof fn lemma_writes_rebuild(v: FsView, writes: Seq<(u32, Seq<u8>)>)
    requires
        v.total == v.size / (BLOCK_SIZE as u32),
        v.total > 0 ==> v.block_addr(v.total - 1) + 1 <= v.mem.len(),
        writes_ok(v.format_view(), writes),
        writes_in_device(v.format_view(), writes),
        writes_view(v.format_view(), writes).used <= v.total,
    ensures
        ({
            let u = writes_view(v.format_view(), writes);
            &&& u.used == u.rebuilt().used
            &&& tail_empty(u)
            &&& u.offset == v.offset
            &&& u.size == v.size
            &&& u.total == v.total
            &&& u.mem.len() == v.mem.len()
        }),
    decreases writes.len(),
{
    let fv = v.format_view();
    if writes.len() == 0 {
        law_format_frees_all_blocks(v);
        lemma_formatted(v, v.total as nat);
        let x0 = FsView { mem: v.formatted(v.total as nat), ..v };
        law_rebuild_idempotent(x0);
        assert forall|b: int|
            fv.used <= b < fv.total && fv.block_addr(b) + 1 <= fv.mem.len() implies #[trigger] fv.status_at(
            b,
        ) == status_byte(BlockStatus::Empty) by {
            assert(fv.block_addr(b) == v.block_addr(b));
            assert(fv.mem[fv.block_addr(b)] == status_byte(BlockStatus::Empty));
            assert(fv.mem.subrange(fv.block_addr(b), fv.block_addr(b) + 1) =~= seq![
                fv.mem[fv.block_addr(b)],
            ]);
        }
    } else {
        let prev = writes.drop_last();
        let p = writes_view(fv, prev);
        let key = writes.last().0;
        let payload = writes.last().1;
        let u = p.write_view(key, payload);
        let len = payload.len() as int;
        let n = chunk_count(len);
        crate::filesystem::lemma_chunks(len, 0);
        if key <= crate::layout::MAX_KEY_ID && n > 0 {
            crate::filesystem::lemma_write_bounds(p, key, payload, n - 1);
        }
        assert(p.used <= u.used);
        lemma_writes_rebuild(v, prev);
        if key > crate::layout::MAX_KEY_ID {
            assert(u == p);
        } else if n == 0 {
            assert(u.mem == p.mem);
            assert(u =~= p);
        } else {
            lemma_written(p, key, payload, n as nat);
            crate::filesystem::lemma_chunks(len, n - 1);
            if p.used + n < p.total {
                assert(p.block_addr(p.used + n) <= v.block_addr(v.total - 1));
            }
            law_rebuild_agrees_after_write(p, key, payload);
            assert forall|b: int|
                u.used <= b < u.total && u.block_addr(b) + 1 <= u.mem.len() implies #[trigger] u.status_at(
                b,
            ) == status_byte(BlockStatus::Empty) by {
                assert(p.status_at(b) == status_byte(BlockStatus::Empty));
                lemma_read_same(u.mem, p.mem, u.block_addr(b), seq![0u8]);
            }
        }
    }
}

/// The count of used blocks always agrees with the device after a format and
/// any sequence of writes that stay inside the region and the device:
/// rebuilding the cache then finds the count the writes kept.
pub proof fn law_rebuild_agrees_after_writes(v: FsView, writes: Seq<(u32, Seq<u8>)>)
    requires
        v.total == v.size / (BLOCK_SIZE as u32),
        v.total > 0 ==> v.block_addr(v.total - 1) + 1 <= v.mem.len(),
        writes_ok(v.format_view(), writes),
        writes_in_device(v.format_view(), writes),
        writes_view(v.format_view(), writes).used <= v.total,
    ensures
        writes_view(v.format_view(), writes).rebuilt() == writes_view(v.format_view(), writes),
{
    lemma_writes_rebuild(v, writes);
    let u = writes_view(v.format_view(), writes);
    assert(u.rebuilt() =~= u);
}

/// The length a value's first block records is the length a read of it gives:
/// from a formatted filesystem, after a fresh key is written as in
/// `law_read_back_fresh_key`, `size_of_key_value` of the key gives the
/// length of the value, and reading the key gives that same length.
pub proof fn law_size_agrees_with_read(
    v: FsView,
    writes: Seq<(u32, Seq<u8>)>,
    key: u32,
    payload: Seq<u8>,
    buf: Seq<u8>,
)
    requires
        v.total == v.size / (BLOCK_SIZE as u32),
        v.total > 0 ==> v.block_addr(0) + 1 <= v.mem.len(),
        writes_ok(v.format_view(), writes),
        writes_in_device(v.format_view(), writes),
        forall|m: int|
            0 <= m < writes.len() ==> (#[trigger] writes[m]).0 != key || writes[m].1.len() == 0,
        key <= crate::layout::MAX_KEY_ID,
        0 < payload.len() <= buf.len(),
        ({
            let u = writes_view(v.format_view(), writes);
            let n = chunk_count(payload.len() as int);
            let reach = u.block_addr(u.used + n - 1) + OFFSET_ADDRESS_PAYLOAD + buf.len() - (n - 1)
                * PAYLOAD_SIZE;
            &&& reach <= u.mem.len()
            &&& reach <= u32::MAX
        }),
    ensures
        ({
            let w = writes_view(v.format_view(), writes).write_view(key, payload);
            &&& w.value_size(key) == payload.len() as u32
            &&& w.read_result(key, buf).0 == Ok::<u32, crate::filesystem::WeirdoFileSystemError>(
                w.value_size(key),
            )
        }),
{
    let u = writes_view(v.format_view(), writes);
    lemma_fresh_read_back_ok(v, writes, key, payload, buf.len() as int);
    crate::filesystem::lemma_chunks(payload.len() as int, 0);
    lemma_read_back_bounds(u, key, payload, buf.len() as int, 0);
    assert((key + CHAIN_KEY_STRIDE * 0) as u32 == key);
    assert(u.find_key((key + CHAIN_KEY_STRIDE * 0) as u32) is None);
    law_size_of_written_value(u, key, payload);
    law_read_back_written_value(u, key, payload, buf);
}

/// Writing one sequence and then another is writing their concatenation.
proof fn lemma_writes_append(v: FsView, a: Seq<(u32, Seq<u8>)>, b: Seq<(u32, Seq<u8>)>)
    ensures
        writes_view(v, a + b) == writes_view(writes_view(v, a), b),
        writes_ok(v, a + b) == (writes_ok(v, a) && writes_ok(writes_view(v, a), b)),
        writes_in_device(v, a + b) == (writes_in_device(v, a) && writes_in_device(
            writes_view(v, a),
            b,
        )),
    decreases b.len(),
{
    if b.len() == 0 {
        assert(a + b =~= a);
    } else {
        lemma_writes_append(v, a, b.drop_last());
        assert((a + b).drop_last() =~= a + b.drop_last());
        assert((a + b).last() == b.last());
    }
}

/// What a key holds is its first value: after a format and any sequence of
/// writes inside the device, where the `m`-th write is the first to store a
/// (non-empty) value under `key`, `size_of_key_value` of the key reports the
/// length of that value, and reading the key succeeds with that same length
/// and leaves that value at the start of the buffer, whatever the later
/// writes are, writes under the same key again included. So the length
/// reported and the length read back always agree, and a later write under
/// the key changes neither.
pub proof fn law_key_holds_first_written_value(
    v: FsView,
    writes: Seq<(u32, Seq<u8>)>,
    key: u32,
    m: int,
    buf: Seq<u8>,
)
    requires
        v.total == v.size / (BLOCK_SIZE as u32),
        v.total > 0 ==> v.block_addr(0) + 1 <= v.mem.len(),
        writes_ok(v.format_view(), writes),
        writes_in_device(v.format_view(), writes),
        key <= crate::layout::MAX_KEY_ID,
        0 <= m < writes.len(),
        writes[m].0 == key,
        0 < writes[m].1.len() <= buf.len(),
        forall|i: int| 0 <= i < m ==> (#[trigger] writes[i]).0 != key || writes[i].1.len() == 0,
        ({
            let u = writes_view(v.format_view(), writes.take(m));
            let n = chunk_count(writes[m].1.len() as int);
            let reach = u.block_addr(u.used + n - 1) + OFFSET_ADDRESS_PAYLOAD + buf.len() - (n - 1)
                * PAYLOAD_SIZE;
            &&& reach <= u.mem.len()
            &&& reach <= u32::MAX
        }),
    ensures
        ({
            let z = writes_view(v.format_view(), writes);
            let payload = writes[m].1;
            &&& z.value_size(key) == payload.len() as u32
            &&& z.read_ok(key, buf)
            &&& z.read_result(key, buf).0 == Ok::<u32, crate::filesystem::WeirdoFileSystemError>(
                z.value_size(key),
            )
            &&& z.read_result(key, buf).1.take(payload.len() as int) == payload
        }),
{
    let fv = v.format_view();
    let payload = writes[m].1;
    let before = writes.take(m);
    let later = writes.skip(m + 1);
    let upto = writes.take(m + 1);
    assert(writes =~= upto + later);
    assert(upto.drop_last() =~= before);
    assert(upto.last() == writes[m]);
    lemma_writes_append(fv, upto, later);
    let u = writes_view(fv, before);
    let w = u.write_view(key, payload);
    assert(writes_view(fv, upto) == w);
    assert(writes_ok(fv, upto));
    assert(writes_ok(fv, before));
    assert(writes_in_device(fv, before));
    assert forall|i: int| 0 <= i < before.len() implies (#[trigger] before[i]).0 != key
        || before[i].1.len() == 0 by {
        assert(before[i] == writes[i]);
    }
    let z = writes_view(fv, writes);
    assert(z == writes_view(w, later));
    // The read.
    law_written_value_stays_readable(v, before, key, payload, later, buf);
    // The size.
    lemma_fresh_read_back_ok(v, before, key, payload, buf.len() as int);
    lemma_keeps_chain_written(u, key, payload, buf.len() as int);
    lemma_keeps_chain_writes(u, key, payload, buf.len() as int, later);
    lemma_chain_find(u, key, payload, buf.len() as int, w, 0);
    lemma_chain_find(u, key, payload, buf.len() as int, z, 0);
    assert((key + CHAIN_KEY_STRIDE * 0) as u32 == key);
    assert(u.find_key((key + CHAIN_KEY_STRIDE * 0) as u32) is None);
    crate::filesystem::lemma_chunks(payload.len() as int, 0);
    lemma_read_back_bounds(u, key, payload, buf.len() as int, 0);
    law_size_of_written_value(u, key, payload);
    let n = chunk_count(payload.len() as int);
    let a = u.block_addr(u.used as int) + crate::layout::OFFSET_VALUE_SIZE;
    assert(u.block_addr(u.used as int) + BLOCK_SIZE <= u.block_addr(u.used + n));
    lemma_read_same(z.mem, w.mem, a, seq![0u8, 0u8, 0u8, 0u8]);
    assert(z.block_addr(u.used as int) == u.block_addr(u.used as int));
    assert(w.block_addr(u.used as int) == u.block_addr(u.used as int));
}

/// A key that holds no value reports none: after a format and any sequence of
/// writes inside the device none of which stores a value under `key`,
/// `size_of_key_value` of the key reports zero and reading it gives
/// `KeyNotFound`, leaving the buffer as it was.
pub proof fn law_unwritten_key_holds_nothing(
    v: FsView,
    writes: Seq<(u32, Seq<u8>)>,
    key: u32,
    buf: Seq<u8>,
)
    requires
        v.total == v.size / (BLOCK_SIZE as u32),
        v.total > 0 ==> v.block_addr(0) + 1 <= v.mem.len(),
        writes_ok(v.format_view(), writes),
        writes_in_device(v.format_view(), writes),
        key <= crate::layout::MAX_KEY_ID,
        forall|i: int|
            0 <= i < writes.len() ==> (#[trigger] writes[i]).0 != key || writes[i].1.len() == 0,
    ensures
        ({
            let z = writes_view(v.format_view(), writes);
            &&& z.value_size(key) == 0
            &&& z.read_result(key, buf) == (
                Err::<u32, crate::filesystem::WeirdoFileSystemError>(
                    crate::filesystem::WeirdoFileSystemError::KeyNotFound,
                ),
                buf,
            )
        }),
{
    law_unwritten_key_absent(v, writes, key, 0);
    assert((key + CHAIN_KEY_STRIDE * 0) as u32 == key);
}

} // verus!
