# little-weirdo-filesystem

A small key-value filesystem for embedded storage devices, with its behaviour
stated in contracts and proved with Verus.

- `src/storage.rs`: the storage device traits (`ReadStorage`, `Storage`), with
  a byte-level model of reads and writes.
- `src/memory_storage.rs`: a device held in RAM.
- `src/layout.rs`: the block layout and the little-endian encodings.
- `src/filesystem.rs`: `WeirdoFileSystem`, its model `FsView`, and the
  operations' contracts.
- `src/laws.rs`: what the operations promise of one another (a written value
  reads back, survives later writes, formatting frees every block, ...).
- `app/lib.rs`: bridges to the `embedded-storage` traits, so that the
  filesystem can be mounted on a driver of the embedded ecosystem.

What is proved of the bytes on a device holds for devices that state they are
reliable, which only verified devices can do (here `MemoryStorage`). A driver
mounted through the bridge is unverified: for it the proofs cover only what
does not depend on the device (block counts, key-range errors), and reading a
value there is outside the proved contracts.
