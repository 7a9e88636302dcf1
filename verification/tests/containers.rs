use plonk_setup::container::{read_bin_file, read_section, write_container, BinFile};
use plonk_setup::errors::SetupError;

fn push_u32(out: &mut Vec<u8>, x: u32) {
    out.extend_from_slice(&x.to_le_bytes());
}

fn push_u64(out: &mut Vec<u8>, x: u64) {
    out.extend_from_slice(&x.to_le_bytes());
}

fn sample_file() -> Vec<u8> {
    let mut contents = Vec::new();
    contents.extend_from_slice(b"ptau");
    push_u32(&mut contents, 1);
    push_u32(&mut contents, 2);
    // section 1: id = 3, size = 8
    push_u32(&mut contents, 3);
    push_u64(&mut contents, 8);
    contents.extend_from_slice(&[0xaa; 8]);
    // section 2: id = 12, size = 4
    push_u32(&mut contents, 12);
    push_u64(&mut contents, 4);
    contents.extend_from_slice(&[0xbb; 4]);
    contents
}

#[test]
fn test_read_bin_file_basic() {
    let contents = sample_file();
    let sections = read_bin_file(&contents, &b"ptau".to_vec(), 2).unwrap();
    assert_eq!(sections.entries.len(), 2);
    assert!(sections.contains_id(3));
    assert!(sections.contains_id(12));
    let sec3 = sections.first(3).unwrap();
    assert_eq!(sec3.size, 8);
    let sec12 = sections.first(12).unwrap();
    assert_eq!(sec12.size, 4);
}

#[test]
fn test_invalid_magic_type() {
    let mut contents = Vec::new();
    contents.extend_from_slice(b"junk");
    push_u32(&mut contents, 1);
    push_u32(&mut contents, 0);
    let result = read_bin_file(&contents, &b"ptau".to_vec(), 2);
    assert!(result.is_err());
    assert_eq!(result.unwrap_err(), SetupError::BadMagic);
}

#[test]
fn test_unsupported_version() {
    let mut contents = Vec::new();
    contents.extend_from_slice(b"ptau");
    push_u32(&mut contents, 999);
    push_u32(&mut contents, 0);
    let result = read_bin_file(&contents, &b"ptau".to_vec(), 1);
    assert!(result.is_err());
    assert_eq!(result.unwrap_err(), SetupError::UnsupportedVersion);
}

#[test]
fn test_truncated_file() {
    let contents = b"pta".to_vec();
    assert_eq!(
        read_bin_file(&contents, &b"ptau".to_vec(), 1).unwrap_err(),
        SetupError::Truncated
    );
    // section header claims more bytes than the file holds
    let mut contents = Vec::new();
    contents.extend_from_slice(b"ptau");
    push_u32(&mut contents, 1);
    push_u32(&mut contents, 1);
    push_u32(&mut contents, 3);
    push_u64(&mut contents, 100);
    contents.extend_from_slice(&[0u8; 4]);
    assert_eq!(
        read_bin_file(&contents, &b"ptau".to_vec(), 1).unwrap_err(),
        SetupError::Truncated
    );
}

#[test]
fn test_container_round_trip() {
    let sections = vec![
        (3u32, vec![0xaau8; 8]),
        (12u32, vec![0xbbu8; 4]),
        (3u32, vec![1u8, 2, 3]),
    ];
    let data = write_container(&b"ptau".to_vec(), 1, &sections);
    let table = read_bin_file(&data, &b"ptau".to_vec(), 1).unwrap();
    assert_eq!(table.entries.len(), 3);
    for (i, (id, payload)) in sections.iter().enumerate() {
        let (tid, sec) = &table.entries[i];
        assert_eq!(tid, id);
        assert_eq!(sec.size as usize, payload.len());
        let got = &data[sec.offset as usize..(sec.offset + sec.size) as usize];
        assert_eq!(got, &payload[..]);
    }
    // the first section with id 3 is the first one written
    let bytes = read_section(&data, &table, 3, None, None).unwrap();
    assert_eq!(bytes, vec![0xaau8; 8]);
    // a slice of a section
    let part = read_section(&data, &table, 3, Some(2), Some(4)).unwrap();
    assert_eq!(part, vec![0xaau8; 4]);
}

#[test]
fn test_read_section_errors() {
    let sections = vec![(7u32, vec![9u8, 8, 7])];
    let data = write_container(&b"r1cs".to_vec(), 1, &sections);
    let table = read_bin_file(&data, &b"r1cs".to_vec(), 1).unwrap();
    assert_eq!(
        read_section(&data, &table, 5, None, None).unwrap_err(),
        SetupError::NoSuchSection
    );
    assert_eq!(
        read_section(&data, &table, 7, Some(2), Some(2)).unwrap_err(),
        SetupError::OutOfBounds
    );
    assert_eq!(
        read_section(&data, &table, 7, Some(4), None).unwrap_err(),
        SetupError::OutOfBounds
    );
}

#[test]
fn test_writer_sections_and_sizes() {
    let mut fd = BinFile::create(&b"zkey".to_vec(), 1, 2);
    fd.start_write_section(10);
    fd.write_u32(0xdeadbeef);
    fd.end_write_section();
    fd.start_write_section(11);
    fd.write_u64(7);
    fd.write_bytes(&vec![1u8, 2, 3]);
    fd.end_write_section();
    let table = read_bin_file(&fd.buf, &b"zkey".to_vec(), 1).unwrap();
    assert_eq!(table.entries.len(), 2);
    let s10 = table.first(10).unwrap();
    assert_eq!(s10.size, 4);
    let s11 = table.first(11).unwrap();
    assert_eq!(s11.size, 11);
    let p10 = read_section(&fd.buf, &table, 10, None, None).unwrap();
    assert_eq!(p10, 0xdeadbeefu32.to_le_bytes().to_vec());
}
