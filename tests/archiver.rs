use file_compressor::archiver::archive_bytes;
use file_compressor::archiver::unarchive_bytes;
use file_compressor::archiver::ArchiveEntry;

fn entry(name: &str, contents: &[u8]) -> ArchiveEntry {
    ArchiveEntry { name: name.as_bytes().to_vec(), contents: contents.to_vec() }
}

#[test]
fn archive_layout_is_exact() {
    let bytes = archive_bytes(&vec![entry("ab", b"xyz")]);
    let mut expected = vec![0u8, 0, 0, 0, 0, 0, 0, 1];
    expected.extend_from_slice(&[0, 0, 0, 0, 0, 0, 0, 2]);
    expected.extend_from_slice(b"ab");
    expected.extend_from_slice(&[0, 0, 0, 0, 0, 0, 0, 3]);
    expected.extend_from_slice(b"xyz");
    assert_eq!(bytes, expected);
}

#[test]
fn empty_archive_is_a_zero_count() {
    assert_eq!(archive_bytes(&Vec::new()), vec![0u8; 8]);
    assert_eq!(unarchive_bytes(&vec![0u8; 8]).unwrap().len(), 0);
}

#[test]
fn archive_round_trips() {
    let files = vec![entry("sample1.txt", b"first file"), entry("sample2.txt", b""), entry("x", &[0, 255, 7])];
    let bytes = archive_bytes(&files);
    let back = unarchive_bytes(&bytes).unwrap();
    assert_eq!(back.len(), 3);
    for (a, b) in files.iter().zip(back.iter()) {
        assert_eq!(a.name, b.name);
        assert_eq!(a.contents, b.contents);
    }
}

#[test]
fn cut_archive_is_refused() {
    let bytes = archive_bytes(&vec![entry("name", b"contents")]);
    assert!(unarchive_bytes(&bytes[..bytes.len() - 1].to_vec()).is_none());
    assert!(unarchive_bytes(&bytes[..5].to_vec()).is_none());
    let mut huge = vec![0u8, 0, 0, 0, 0, 0, 0, 1];
    huge.extend_from_slice(&[0xff; 8]);
    assert!(unarchive_bytes(&huge).is_none());
}
