use little_weirdo_filesystem::memory_storage::MemoryStorage;
use little_weirdo_filesystem::{BlockStatus, Storage, WeirdoFileSystem, WeirdoFileSystemError};

/// Test values: one that fits in one block, one of several blocks, and one of
/// more than 32 KiB.
fn mock0() -> Vec<u8> {
    (0..1500u32).map(|i| (i * 7 + 3) as u8).collect()
}

fn mock1() -> Vec<u8> {
    (0..20_000u32).map(|i| (i * 13 + 1) as u8).collect()
}

fn mock2() -> Vec<u8> {
    (0..100_000u32).map(|i| (i * 31 + (i >> 8)) as u8).collect()
}

fn new_fs() -> WeirdoFileSystem<MemoryStorage> {
    let storage = MemoryStorage::new(0x100000);
    WeirdoFileSystem::new(storage, 0, 0x100000)
}

#[test]
fn test_fs_storage_read_write() {
    let mut filesystem = new_fs();
    filesystem.format();

    let payload = mock0();
    let size = payload.len();

    filesystem.write_key_value(1, &payload).unwrap();

    let mut buffer: [u8; 2042] = [0; 2042];
    let size_of_value = filesystem.read_key_value(1, &mut buffer).unwrap();
    assert_eq!(size_of_value, size as u32);
    assert_eq!(&buffer[..size_of_value as usize], &payload[..]);
}

#[test]
fn test_fs_free_blocks() {
    let mut filesystem = new_fs();
    filesystem.format();

    let payload = mock0();
    filesystem.write_key_value(1, &payload).unwrap();
    filesystem.write_key_value(2, &payload).unwrap();
    filesystem.write_key_value(3, &payload).unwrap();
    let free_blocks = filesystem.amount_of_free_blocks();
    assert_eq!(free_blocks, 509);
    filesystem.build_cache();
    let free_blocks = filesystem.amount_of_free_blocks();
    assert_eq!(free_blocks, 509);
}

#[test]
fn test_fs_chunking() {
    let mut filesystem = new_fs();
    filesystem.format();

    let payload = mock1();
    let _result = filesystem.write_key_value(800, &payload).unwrap();
    let _result = filesystem.write_key_value(801, &payload).unwrap();

    let mut buffer: [u8; 30_000] = [0; 30_000];
    let size_of_value = filesystem.read_key_value(800, &mut buffer).unwrap();
    let _free_blocks = filesystem.amount_of_free_blocks();

    assert_eq!(size_of_value, payload.len() as u32);
    assert_eq!(&payload[..], &buffer[..size_of_value as usize]);
}

#[test]
fn test_size_of_key() {
    let mut filesystem = new_fs();
    filesystem.format();

    let payload = mock1();
    let _result = filesystem.write_key_value(800, &payload).unwrap();

    assert_eq!(
        filesystem.size_of_key_value(800).unwrap(),
        payload.len() as u32
    );
}

#[test]
fn test_fs_chunking_larger_then_32kb() {
    let mut filesystem = new_fs();
    filesystem.format();

    let payload = mock2();
    let _result = filesystem.write_key_value(800, &payload).unwrap();

    let mut buffer: [u8; 300_000] = [0; 300_000];
    let size_of_value = filesystem.read_key_value(800, &mut buffer).unwrap();
    assert_eq!(size_of_value, payload.len() as u32);
    assert_eq!(&payload[..], &buffer[..size_of_value as usize]);
}

#[test]
fn test_fs_format() {
    let mut filesystem = new_fs();
    filesystem.format();

    let payload = mock0();
    filesystem.write_key_value(1, &payload).unwrap();
    filesystem.write_key_value(2, &payload).unwrap();
    filesystem.write_key_value(3, &payload).unwrap();
    let free_blocks = filesystem.amount_of_free_blocks();
    assert_eq!(free_blocks, 509);
    filesystem.format();
    let free_blocks = filesystem.amount_of_free_blocks();
    assert_eq!(free_blocks, 512);
}

#[test]
fn test_retrieve_elements() {
    // An image of a filesystem holding key 700, as a device would hold it.
    let image = {
        let mut fs = new_fs();
        fs.format();
        fs.write_key_value(700, &mock0()[..1000]).unwrap();
        fs.storage.dump().to_vec()
    };
    let mut storage = MemoryStorage::new(0x100000);
    storage.load(&image);

    let mut filesystem: WeirdoFileSystem<MemoryStorage> =
        WeirdoFileSystem::new(storage, 0, 0x100000);

    let mut buffer: [u8; 1200] = [0; 1200];
    let size_of_value = filesystem.read_key_value(700, &mut buffer);
    println!("size {:?}", size_of_value);
}

#[test]
fn new_counts_blocks_of_region() {
    let mut filesystem = new_fs();
    assert_eq!(filesystem.total_blocks(), 512);
    // A zeroed device has no block marked empty: every block counts as used.
    assert_eq!(filesystem.amount_of_used_blocks(), 0);
    filesystem.format();
    assert_eq!(filesystem.amount_of_used_blocks(), 512);
    assert_eq!(filesystem.amount_of_free_blocks(), 512);
}

#[test]
fn region_size_rounds_down_to_whole_blocks() {
    let storage = MemoryStorage::new(10_000);
    let mut filesystem = WeirdoFileSystem::new(storage, 100, 5000);
    assert_eq!(filesystem.total_blocks(), 2);
}

#[test]
fn write_counts_one_block_per_chunk() {
    let mut filesystem = new_fs();
    filesystem.format();
    filesystem.write_key_value(5, &mock1()).unwrap();
    // 20000 bytes in chunks of 2033 bytes: ten blocks.
    assert_eq!(filesystem.amount_of_free_blocks(), 502);
    filesystem.build_cache();
    assert_eq!(filesystem.amount_of_free_blocks(), 502);
}

#[test]
fn keys_above_limit_are_rejected() {
    let mut filesystem = new_fs();
    filesystem.format();
    assert!(matches!(
        filesystem.write_key_value(1000, &[1, 2, 3]),
        Err(WeirdoFileSystemError::KeyToLarge)
    ));
    assert_eq!(filesystem.amount_of_free_blocks(), 512);
    let mut buffer = [0u8; 16];
    assert!(matches!(
        filesystem.read_key_value(1000, &mut buffer),
        Err(WeirdoFileSystemError::KeyToLarge)
    ));
    assert!(matches!(
        filesystem.size_of_key_value(1000),
        Err(WeirdoFileSystemError::KeyToLarge)
    ));
    assert!(filesystem.write_key_value(999, &[1, 2, 3]).is_ok());
}

#[test]
fn missing_key_is_not_found() {
    let mut filesystem = new_fs();
    filesystem.format();
    filesystem.write_key_value(3, &[1, 2, 3]).unwrap();
    let mut buffer = [7u8; 16];
    assert!(matches!(
        filesystem.read_key_value(4, &mut buffer),
        Err(WeirdoFileSystemError::KeyNotFound)
    ));
    assert_eq!(buffer, [7u8; 16]);
    assert_eq!(filesystem.size_of_key_value(4).unwrap(), 0);
}

#[test]
fn block_layout_on_device() {
    let mut filesystem = new_fs();
    filesystem.format();
    filesystem.write_key_value(0x0102, &[0xAA, 0xBB]).unwrap();
    let bytes = filesystem.storage.dump();
    assert_eq!(bytes[0], b'O');
    assert_eq!(&bytes[1..5], &[0x02, 0x01, 0, 0]);
    assert_eq!(&bytes[5..7], &[2, 0]);
    assert_eq!(&bytes[7..11], &[0xFF, 0xFF, 0xFF, 0xFF]);
    assert_eq!(&bytes[11..15], &[2, 0, 0, 0]);
    assert_eq!(&bytes[15..17], &[0xAA, 0xBB]);
    assert_eq!(bytes[2048], b'E');
}

#[test]
fn chain_blocks_carry_stepped_keys() {
    let mut filesystem = new_fs();
    filesystem.format();
    let payload = vec![1u8; 2033 + 10];
    filesystem.write_key_value(7, &payload).unwrap();
    let bytes = filesystem.storage.dump();
    // First block: full chunk, next key 1007.
    assert_eq!(&bytes[5..7], &[0xF1, 0x07]);
    assert_eq!(&bytes[7..11], &[0xEF, 0x03, 0, 0]);
    // Second block: key 1007, ten bytes, end-of-chain marker.
    assert_eq!(&bytes[2049..2053], &[0xEF, 0x03, 0, 0]);
    assert_eq!(&bytes[2053..2055], &[10, 0]);
    assert_eq!(&bytes[2055..2059], &[0xFF, 0xFF, 0xFF, 0xFF]);
}

#[test]
fn size_of_written_values() {
    let mut filesystem = new_fs();
    filesystem.format();
    filesystem.write_key_value(10, &mock0()).unwrap();
    filesystem.write_key_value(11, &mock2()).unwrap();
    assert_eq!(filesystem.size_of_key_value(10).unwrap(), 1500);
    assert_eq!(filesystem.size_of_key_value(11).unwrap(), 100_000);
}

#[test]
fn first_write_of_a_key_wins() {
    let mut filesystem = new_fs();
    filesystem.format();
    filesystem.write_key_value(9, &[1, 1, 1]).unwrap();
    filesystem.write_key_value(9, &[2, 2, 2, 2]).unwrap();
    let mut buffer = [0u8; 8];
    assert_eq!(filesystem.read_key_value(9, &mut buffer).unwrap(), 3);
    assert_eq!(&buffer[..3], &[1, 1, 1]);
}

#[test]
fn value_filling_whole_blocks_reads_back() {
    // A value whose length is a multiple of a block's payload ends with a
    // full chunk, which carries the end marker.
    let storage = MemoryStorage::new(0x10000);
    let mut filesystem = WeirdoFileSystem::new(storage, 0, 0x10000);
    filesystem.format();
    filesystem.write_key_value(1, &[7u8; 2033]).unwrap();
    let mut buffer = [0u8; 4096];
    assert_eq!(filesystem.read_key_value(1, &mut buffer).unwrap(), 2033);
    assert_eq!(&buffer[..2033], &[7u8; 2033][..]);
    let two_blocks = vec![9u8; 2 * 2033];
    filesystem.write_key_value(2, &two_blocks).unwrap();
    let mut buffer = [0u8; 5000];
    assert_eq!(filesystem.read_key_value(2, &mut buffer).unwrap(), 4066);
    assert_eq!(&buffer[..4066], &two_blocks[..]);
}

#[test]
fn value_reads_back_on_erased_device() {
    // On a device whose bytes are all 0xFF, as erased flash is, the whole
    // next-key field is written, so the end of the chain is found.
    let mut storage = MemoryStorage::new(8192);
    storage.load(&[0xFFu8; 8192]);
    let mut filesystem = WeirdoFileSystem::new(storage, 0, 8192);
    filesystem.format();
    filesystem.write_key_value(1, b"Hello, Weirdo!").unwrap();
    let mut value = [0u8; 1024];
    assert_eq!(filesystem.read_key_value(1, &mut value).unwrap(), 14);
    assert_eq!(&value[..14], b"Hello, Weirdo!");
}

#[test]
fn empty_value_is_not_stored() {
    let mut filesystem = new_fs();
    filesystem.format();
    filesystem.write_key_value(4, &[]).unwrap();
    assert_eq!(filesystem.amount_of_free_blocks(), 512);
    assert_eq!(filesystem.size_of_key_value(4).unwrap(), 0);
}

#[test]
fn long_chain_under_key_535_reads_back() {
    // Key 535 gives its 66th block the key 65535; the end of a chain is
    // marked by a value no chain key takes, so the whole value reads back.
    let mut filesystem = new_fs();
    filesystem.format();
    let payload: Vec<u8> = (0..140_000u32).map(|i| i as u8).collect();
    filesystem.write_key_value(535, &payload).unwrap();
    let mut buffer = vec![0u8; 140_000];
    let got = filesystem.read_key_value(535, &mut buffer).unwrap();
    assert_eq!(got, 140_000);
    assert_eq!(&buffer[..], &payload[..]);
    assert_eq!(filesystem.size_of_key_value(535).unwrap(), 140_000);
}

#[test]
fn read_fills_rest_of_buffer_from_device() {
    // The read copies the whole rest of the buffer from each block, so the
    // bytes after the value come from the device.
    let mut filesystem = new_fs();
    filesystem.format();
    filesystem.write_key_value(1, &[5, 6]).unwrap();
    let mut buffer = [9u8; 4];
    assert_eq!(filesystem.read_key_value(1, &mut buffer).unwrap(), 2);
    assert_eq!(buffer, [5, 6, 0, 0]);
}

#[test]
fn used_blocks_function_counts_free_blocks() {
    let mut filesystem = new_fs();
    filesystem.format();
    filesystem.write_key_value(1, &mock0()).unwrap();
    filesystem.write_key_value(2, &mock1()).unwrap();
    assert_eq!(filesystem.amount_of_used_blocks(), 512 - 11);
    assert_eq!(filesystem.amount_of_used_blocks(), filesystem.amount_of_free_blocks());
}

#[test]
fn device_accessor_gives_the_storage() {
    let mut filesystem = new_fs();
    filesystem.format();
    filesystem.write_key_value(3, &[4, 5]).unwrap();
    let capacity = little_weirdo_filesystem::ReadStorage::capacity(filesystem.device());
    assert_eq!(capacity, 0x100000);
}

#[test]
fn block_status_bytes() {
    assert_eq!(BlockStatus::Empty.byte(), b'E');
    assert_eq!(BlockStatus::Occupied.byte(), b'O');
}

#[test]
fn storage_trait_on_filesystem_device() {
    let mut filesystem = new_fs();
    filesystem.format();
    filesystem.storage.write(0, &[b'O']).unwrap();
    filesystem.build_cache();
    assert_eq!(filesystem.amount_of_free_blocks(), 511);
}

#[test]
fn later_write_keeps_earlier_blocks() {
    let mut filesystem = new_fs();
    filesystem.format();
    filesystem.write_key_value(1, &mock0()).unwrap();
    let before = filesystem.storage.dump()[..2048].to_vec();
    filesystem.write_key_value(2, &mock1()).unwrap();
    assert_eq!(&filesystem.storage.dump()[..2048], &before[..]);
    let mut buffer = [0u8; 1500];
    assert_eq!(filesystem.read_key_value(1, &mut buffer).unwrap(), 1500);
    assert_eq!(&buffer[..], &mock0()[..]);
}

#[test]
fn rebuilding_twice_finds_the_same_count() {
    let mut filesystem = new_fs();
    filesystem.format();
    filesystem.write_key_value(1, &mock1()).unwrap();
    filesystem.build_cache();
    let once = filesystem.amount_of_free_blocks();
    filesystem.build_cache();
    assert_eq!(filesystem.amount_of_free_blocks(), once);
    assert_eq!(once, 502);
}
