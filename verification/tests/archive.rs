use bstseal::archive::{
    packable_files, read_index, write_index, ArchiveError, IndexEntry, PackedFile,
};

fn file(path: &str, size: u64) -> PackedFile {
    PackedFile { path: path.as_bytes().to_vec(), size }
}

#[test]
fn index_bytes_are_magic_count_and_entries() {
    let files = vec![file("a.txt", 10), file("b", 5)];
    assert!(packable_files(&files));
    let index = write_index(&files);
    let mut expected = b"BSTSEAL\0".to_vec();
    expected.extend_from_slice(&[2, 0, 0, 0]);
    expected.extend_from_slice(&[5, 0]);
    expected.extend_from_slice(b"a.txt");
    expected.extend_from_slice(&[54, 0, 0, 0, 0, 0, 0, 0]);
    expected.extend_from_slice(&[10, 0, 0, 0, 0, 0, 0, 0]);
    expected.extend_from_slice(&[1, 0]);
    expected.extend_from_slice(b"b");
    expected.extend_from_slice(&[64, 0, 0, 0, 0, 0, 0, 0]);
    expected.extend_from_slice(&[5, 0, 0, 0, 0, 0, 0, 0]);
    assert_eq!(index, expected);
    assert_eq!(index.len(), 54);
}

#[test]
fn index_is_read_as_it_was_written() {
    let files = vec![file("dir/one", 0x0102_0304_0506), file("", 0), file("two", 300)];
    let mut data = write_index(&files);
    let used = data.len();
    data.extend_from_slice(&[0xAA; 40]);
    let (entries, read) = read_index(&data).unwrap();
    assert_eq!(read, used);
    let at = used as u64;
    assert_eq!(
        entries,
        vec![
            IndexEntry { path: b"dir/one".to_vec(), offset: at, size: 0x0102_0304_0506 },
            IndexEntry { path: b"".to_vec(), offset: at + 0x0102_0304_0506, size: 0 },
            IndexEntry { path: b"two".to_vec(), offset: at + 0x0102_0304_0506, size: 300 },
        ]
    );
}

#[test]
fn index_without_entries() {
    let index = write_index(&vec![]);
    assert_eq!(index, b"BSTSEAL\0\0\0\0\0".to_vec());
    assert_eq!(read_index(&index), Ok((vec![], 12)));
}

#[test]
fn index_faults() {
    assert_eq!(read_index(b""), Err(ArchiveError::Truncated));
    assert_eq!(read_index(b"BSTSEAL"), Err(ArchiveError::Truncated));
    assert_eq!(read_index(b"BSTSEAL\0"), Err(ArchiveError::Truncated));
    assert_eq!(read_index(b"BSTSEAL\0\x01\0\0"), Err(ArchiveError::Truncated));
    assert_eq!(read_index(b"BSTSEAL!\x00\0\0\0"), Err(ArchiveError::BadMagic));
    assert_eq!(read_index(b"bstseal\0\x00\0\0\0"), Err(ArchiveError::BadMagic));
    // one entry announced, none there
    assert_eq!(read_index(b"BSTSEAL\0\x01\0\0\0"), Err(ArchiveError::Truncated));
    // a path longer than what is left
    assert_eq!(read_index(b"BSTSEAL\0\x01\0\0\0\x05\0abc"), Err(ArchiveError::Truncated));
    let mut cut = write_index(&vec![file("abc", 1)]);
    cut.pop();
    assert_eq!(read_index(&cut), Err(ArchiveError::Truncated));
}

#[test]
fn files_that_do_not_fit_an_archive() {
    let long = PackedFile { path: vec![b'x'; 65536], size: 1 };
    assert!(!packable_files(&vec![long]));
    let longest = PackedFile { path: vec![b'x'; 65535], size: 1 };
    assert!(packable_files(&vec![longest]));
    assert!(!packable_files(&vec![file("a", u64::MAX)]));
    assert!(!packable_files(&vec![file("a", u64::MAX / 2), file("b", u64::MAX / 2 + 1)]));
    assert!(packable_files(&vec![file("a", u64::MAX - 31)]));
    assert!(!packable_files(&vec![file("a", u64::MAX - 30)]));
}
