use little_weirdo_filesystem::memory_storage::MemoryStorage;
use little_weirdo_filesystem::{ReadStorage, Storage};

#[test]
fn test_memory_storage_read_write() {
    let mut storage = MemoryStorage::new(0x100000);

    // Write some data to the storage
    let write_data = b"Hello, world!";

    match storage.write(0, write_data) {
        Ok(_) => {}
        Err(e) => panic!("Write operation failed {:?}", e),
    }

    // Read the data back from the storage
    let mut read_buffer: Vec<u8> = vec![0; write_data.len()];
    match storage.read(0, &mut read_buffer) {
        Ok(_) => {
            assert_eq!(read_buffer.as_slice(), write_data);
        }
        Err(e) => panic!("Read operation failed {:?}", e),
    }
}

#[test]
fn test_memory_storage_capacity() {
    let storage = MemoryStorage::new(0x100000);
    assert_eq!(storage.capacity(), 0x100000); // Ensure the data vector has the correct size
}

#[test]
fn memory_storage_starts_zeroed() {
    let mut storage = MemoryStorage::new(16);
    assert_eq!(storage.dump(), &[0u8; 16][..]);
}

#[test]
fn memory_storage_rejects_access_past_end() {
    let mut storage = MemoryStorage::new(16);
    assert!(storage.write(10, &[1, 2, 3, 4, 5, 6, 7]).is_err());
    assert_eq!(storage.dump(), &[0u8; 16][..]);
    assert!(storage.write(10, &[1, 2, 3, 4, 5, 6]).is_ok());
    let mut buf = [9u8; 7];
    assert!(storage.read(10, &mut buf).is_err());
    assert_eq!(buf, [9u8; 7]);
    let mut buf = [9u8; 6];
    assert!(storage.read(10, &mut buf).is_ok());
    assert_eq!(buf, [1, 2, 3, 4, 5, 6]);
}

#[test]
fn memory_storage_write_keeps_other_bytes() {
    let mut storage = MemoryStorage::new(8);
    storage.write(2, &[7, 8]).unwrap();
    assert_eq!(storage.dump(), &[0, 0, 7, 8, 0, 0, 0, 0][..]);
}

#[test]
fn memory_storage_load_fills_the_start() {
    let mut storage = MemoryStorage::new(6);
    storage.write(0, &[9, 9, 9, 9, 9, 9]).unwrap();
    storage.load(&[1, 2, 3]);
    assert_eq!(storage.dump(), &[1, 2, 3, 9, 9, 9][..]);
    storage.load(&[5, 5, 5, 5, 5, 5, 5, 5]);
    assert_eq!(storage.dump(), &[5, 5, 5, 5, 5, 5][..]);
}
