use dbdb::error::DbError;
use dbdb::storage::{FileStorage, SUPERBLOCK};

#[test]
fn test_storage_superblock() {
    let mut storage = FileStorage::new(Vec::new()).unwrap();
    assert_eq!(None, storage.get_root_addr().unwrap());
    storage.commit_root_addr(42).unwrap();
    assert_eq!(Some(42), storage.get_root_addr().unwrap());
}

#[test]
fn test_storage_write() {
    let mut storage = FileStorage::new(Vec::new()).unwrap();
    assert_eq!(SUPERBLOCK, storage.get_write_addr().unwrap());
    storage.write(b"hello world").unwrap();
    assert_eq!(SUPERBLOCK + 11, storage.get_write_addr().unwrap());
}

#[test]
fn the_superblock_is_512_bytes() {
    assert_eq!(512, SUPERBLOCK);
}

#[test]
fn a_fresh_file_is_a_superblock_of_zeros() {
    let storage = FileStorage::new(Vec::new()).unwrap();
    assert_eq!(&vec![0u8; 512], storage.as_bytes());
    assert_eq!(512, storage.len());
}

#[test]
fn a_short_file_is_filled_up_to_the_superblock() {
    let mut storage = FileStorage::new(vec![9, 8, 7]).unwrap();
    let mut expected = vec![0u8; 512];
    expected[1] = 8;
    expected[2] = 7;
    assert_eq!(&expected, storage.as_bytes());
    assert_eq!(Ok(None), storage.get_root_addr());
}

#[test]
fn a_file_with_a_superblock_is_taken_as_it_is() {
    let mut file = vec![3u8; 512];
    file.extend_from_slice(b"data");
    let mut storage = FileStorage::new(file.clone()).unwrap();
    assert_eq!(&file, storage.as_bytes());
    assert_eq!(Err(DbError::Codec), storage.get_root_addr());
}

#[test]
fn the_root_is_written_over_the_first_bytes_and_nothing_else() {
    let mut file = vec![3u8; 512];
    file.extend_from_slice(b"data");
    let mut storage = FileStorage::new(file.clone()).unwrap();
    storage.commit_root_addr(0x0102).unwrap();
    let mut expected = file.clone();
    expected[..9].copy_from_slice(&[1, 2, 1, 0, 0, 0, 0, 0, 0]);
    assert_eq!(&expected, storage.as_bytes());
    assert_eq!(Ok(Some(0x0102)), storage.get_root_addr());
    storage.commit_root_addr(0).unwrap();
    expected[0] = 0;
    assert_eq!(&expected, storage.as_bytes());
    assert_eq!(Ok(None), storage.get_root_addr());
}

#[test]
fn a_recorded_root_of_zero_means_the_empty_tree() {
    let mut file = vec![0u8; 512];
    file[0] = 1;
    let mut storage = FileStorage::new(file).unwrap();
    assert_eq!(Ok(None), storage.get_root_addr());
}

#[test]
fn every_write_goes_to_the_end() {
    let mut storage = FileStorage::new(Vec::new()).unwrap();
    assert_eq!(Ok(5), storage.write(b"hello"));
    assert_eq!(Ok(6), storage.write(b" world"));
    assert_eq!(Ok(0), storage.write(b""));
    assert_eq!(b"hello world", &storage.as_bytes()[512..]);
    assert_eq!(b"hello world".to_vec(), storage.read(512, 11));
    assert_eq!(b"lo wo".to_vec(), storage.read(515, 5));
    assert_eq!(b"world".to_vec(), storage.read(518, 100));
    assert_eq!(Vec::<u8>::new(), storage.read(523, 1));
    assert_eq!(Vec::<u8>::new(), storage.read(9000, 1));
    assert_eq!(b"world", storage.tail(518));
    assert_eq!(b"", storage.tail(523));
    assert_eq!(b"", storage.tail(524));
}
