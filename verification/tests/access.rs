use binfile::{BinFile, BinFileError, ErrorKind, InvalidFileType, InvalidVersion, RangeError, Section};

fn sample() -> Vec<u8> {
    // type 1: [1, 2, 3, 4] at 24; type 5: [a], [b, c], [] at 40, 53, 67; type 1: [9, 8] at 79
    let mut bytes = b"TEST".to_vec();
    bytes.extend_from_slice(&1u32.to_le_bytes());
    bytes.extend_from_slice(&5u32.to_le_bytes());
    let sections: [(u32, &[u8]); 5] =
        [(1, &[1, 2, 3, 4]), (5, &[0xa]), (5, &[0xb, 0xc]), (5, &[]), (1, &[9, 8])];
    for (section_type, payload) in sections {
        bytes.extend_from_slice(&section_type.to_le_bytes());
        bytes.extend_from_slice(&(payload.len() as u64).to_le_bytes());
        bytes.extend_from_slice(payload);
    }
    bytes
}

fn open() -> BinFile {
    let bytes = sample();
    assert_eq!(bytes.len(), 81);
    BinFile::new(&bytes, bytes.len(), "TEST", 1).unwrap()
}

#[test]
fn unknown_type_is_not_found() {
    let bin = open();
    assert_eq!(bin.get_section_data(999, 0).err().unwrap(), BinFileError::SectionNotFound);
    assert_eq!(bin.get_section_size(999, 0).err().unwrap(), BinFileError::SectionNotFound);
    assert_eq!(bin.get_section_data(999, 7).err().unwrap().kind(), ErrorKind::SectionNotFound);
    assert_eq!(bin.get_section_data(0, 0).err().unwrap(), BinFileError::SectionNotFound);
}

#[test]
fn index_behind_the_last_is_out_of_range() {
    let bin = open();
    assert_eq!(bin.get_section_data(5, 2).unwrap(), &[0u8; 0][..]);
    assert_eq!(bin.get_section_size(5, 2).unwrap(), 0);
    assert_eq!(
        bin.get_section_data(5, 3).err().unwrap(),
        BinFileError::IndexOutOfRange(RangeError { index: 3, count: 3 })
    );
    assert_eq!(
        bin.get_section_size(5, 3).err().unwrap(),
        BinFileError::IndexOutOfRange(RangeError { index: 3, count: 3 })
    );
    assert_eq!(
        bin.get_section_size(1, u32::MAX).err().unwrap(),
        BinFileError::IndexOutOfRange(RangeError { index: u32::MAX, count: 2 })
    );
    assert_eq!(bin.get_section_data(1, 2).err().unwrap().kind(), ErrorKind::IndexOutOfRange);
    assert_eq!(bin.get_section_data(1, 1).unwrap(), &[9u8, 8][..]);
}

#[test]
fn sections_keep_the_order_of_the_stream() {
    let bin = open();
    assert_eq!(bin.get_section_data(5, 0).unwrap(), &[0xau8][..]);
    assert_eq!(bin.get_section_data(5, 1).unwrap(), &[0xbu8, 0xc][..]);
    assert_eq!(bin.get_section_data(1, 0).unwrap(), &[1u8, 2, 3, 4][..]);
    assert_eq!(bin.get_section_data(1, 1).unwrap(), &[9u8, 8][..]);
}

#[test]
fn lookups_leave_the_cursor_alone() {
    let mut bin = open();
    bin.start_read_section(5, 1).unwrap();
    bin.read(1).unwrap();
    let before = (bin.position(), bin.reading_section());
    assert_eq!(bin.get_section_data(1, 0).unwrap(), &[1u8, 2, 3, 4][..]);
    assert_eq!(bin.get_section_size(1, 1).unwrap(), 2);
    assert!(bin.get_section_data(999, 0).is_err());
    assert!(bin.get_section_size(5, 3).is_err());
    assert_eq!((bin.position(), bin.reading_section()), before);
    assert_eq!(bin.read(1).unwrap(), &[0xcu8][..]);
    bin.end_read_section(true).unwrap();
}

#[test]
fn start_moves_the_cursor_to_the_payload() {
    let mut bin = open();
    assert_eq!(bin.position(), 0);
    assert_eq!(bin.reading_section(), None);
    bin.start_read_section(5, 1).unwrap();
    assert_eq!(bin.position(), 53);
    assert_eq!(bin.reading_section(), Some(Section { offset: 53, size: 2 }));
    bin.end_read_section(false).unwrap();
    bin.start_read_section(1, 0).unwrap();
    assert_eq!(bin.position(), 24);
    assert_eq!(bin.reading_section(), Some(Section { offset: 24, size: 4 }));
}

#[test]
fn start_on_a_missing_section_changes_nothing() {
    let mut bin = open();
    bin.read(10).unwrap();
    assert_eq!(bin.start_read_section(999, 0).err().unwrap(), BinFileError::SectionNotFound);
    assert_eq!(
        bin.start_read_section(5, 3).err().unwrap(),
        BinFileError::IndexOutOfRange(RangeError { index: 3, count: 3 })
    );
    assert_eq!(bin.position(), 10);
    assert_eq!(bin.reading_section(), None);
    bin.start_read_section(5, 0).unwrap();
}

#[test]
fn second_start_is_already_reading() {
    let mut bin = open();
    bin.start_read_section(1, 0).unwrap();
    let first = bin.reading_section();
    assert_eq!(first, Some(Section { offset: 24, size: 4 }));
    assert_eq!(bin.start_read_section(1, 0).err().unwrap(), BinFileError::AlreadyReading);
    assert_eq!(bin.start_read_section(5, 1).err().unwrap(), BinFileError::AlreadyReading);
    assert_eq!(bin.reading_section(), first);
    assert_eq!(bin.position(), 24);
    assert_eq!(bin.read(4).unwrap(), &[1u8, 2, 3, 4][..]);
    assert_eq!(bin.start_read_section(5, 1).err().unwrap().kind(), ErrorKind::AlreadyReading);
    assert_eq!(bin.reading_section(), first);
    assert_eq!(bin.position(), 28);
    bin.end_read_section(true).unwrap();
    bin.start_read_section(5, 1).unwrap();
}

#[test]
fn second_start_on_a_missing_section_is_already_reading() {
    let mut bin = open();
    bin.start_read_section(1, 0).unwrap();
    assert_eq!(bin.start_read_section(999, 0).err().unwrap(), BinFileError::AlreadyReading);
    assert_eq!(bin.start_read_section(5, 3).err().unwrap(), BinFileError::AlreadyReading);
    assert_eq!(bin.reading_section(), Some(Section { offset: 24, size: 4 }));
}

#[test]
fn verified_end_after_reading_the_declared_size() {
    let mut bin = open();
    bin.start_read_section(1, 0).unwrap();
    assert_eq!(bin.read(4).unwrap(), &[1u8, 2, 3, 4][..]);
    assert_eq!(bin.end_read_section(true), Ok(()));
    assert_eq!(bin.reading_section(), None);
    assert_eq!(bin.position(), 28);
}

#[test]
fn verified_end_after_reading_too_little() {
    let mut bin = open();
    bin.start_read_section(1, 0).unwrap();
    assert_eq!(bin.read(3).unwrap(), &[1u8, 2, 3][..]);
    assert_eq!(bin.end_read_section(true).err().unwrap(), BinFileError::SectionSizeMismatch);
    assert_eq!(bin.reading_section(), Some(Section { offset: 24, size: 4 }));
    assert_eq!(bin.position(), 27);
    assert_eq!(bin.read(1).unwrap(), &[4u8][..]);
    assert_eq!(bin.end_read_section(true), Ok(()));
}

#[test]
fn verified_end_after_reading_too_much() {
    let mut bin = open();
    bin.start_read_section(1, 0).unwrap();
    assert_eq!(bin.read(5).unwrap().len(), 5);
    assert_eq!(bin.end_read_section(true).err().unwrap().kind(), ErrorKind::SectionSizeMismatch);
    assert_eq!(bin.end_read_section(false), Ok(()));
    assert_eq!(bin.reading_section(), None);
}

#[test]
fn verified_end_counts_several_reads() {
    let mut bin = open();
    bin.start_read_section(1, 0).unwrap();
    assert_eq!(bin.read(1).unwrap(), &[1u8][..]);
    assert_eq!(bin.read(0).unwrap(), &[0u8; 0][..]);
    assert_eq!(bin.read(2).unwrap(), &[2u8, 3][..]);
    assert_eq!(bin.end_read_section(true).err().unwrap(), BinFileError::SectionSizeMismatch);
    assert_eq!(bin.read(1).unwrap(), &[4u8][..]);
    assert_eq!(bin.end_read_section(true), Ok(()));
}

#[test]
fn verified_end_of_an_empty_section() {
    let mut bin = open();
    bin.start_read_section(5, 2).unwrap();
    assert_eq!(bin.position(), 67);
    assert_eq!(bin.end_read_section(true), Ok(()));
    bin.start_read_section(5, 2).unwrap();
    bin.read(1).unwrap();
    assert_eq!(bin.end_read_section(true).err().unwrap(), BinFileError::SectionSizeMismatch);
}

#[test]
fn unverified_end_ignores_the_count() {
    let mut bin = open();
    bin.start_read_section(1, 0).unwrap();
    bin.read(1).unwrap();
    assert_eq!(bin.end_read_section(false), Ok(()));
    assert_eq!(bin.reading_section(), None);
    assert_eq!(bin.position(), 25);
}

#[test]
fn end_while_idle_is_no_active_section() {
    let mut bin = open();
    assert_eq!(bin.end_read_section(true).err().unwrap(), BinFileError::NoActiveSection);
    assert_eq!(bin.end_read_section(false).err().unwrap(), BinFileError::NoActiveSection);
    bin.start_read_section(1, 0).unwrap();
    bin.end_read_section(false).unwrap();
    assert_eq!(bin.end_read_section(false).err().unwrap().kind(), ErrorKind::NoActiveSection);
    assert_eq!(bin.position(), 24);
}

#[test]
fn read_is_allowed_while_idle() {
    let mut bin = open();
    assert_eq!(bin.read(4).unwrap(), b"TEST");
    assert_eq!(bin.position(), 4);
    assert_eq!(bin.read(4).unwrap(), &[1u8, 0, 0, 0][..]);
    assert_eq!(bin.position(), 8);
    assert_eq!(bin.reading_section(), None);
}

#[test]
fn read_may_cross_the_end_of_a_section() {
    let mut bin = open();
    bin.start_read_section(5, 0).unwrap();
    let data = bin.read(14).unwrap().to_vec();
    assert_eq!(data[0], 0xa);
    assert_eq!(&data[1..5], &5u32.to_le_bytes());
    assert_eq!(&data[5..13], &2u64.to_le_bytes());
    assert_eq!(data[13], 0xb);
    assert_eq!(bin.position(), 54);
}

#[test]
fn read_behind_the_buffer_is_out_of_bounds() {
    let mut bin = open();
    assert_eq!(bin.read(82).err().unwrap(), BinFileError::OutOfBounds);
    assert_eq!(bin.position(), 0);
    assert_eq!(bin.read(81).unwrap().len(), 81);
    assert_eq!(bin.position(), 81);
    assert_eq!(bin.read(0).unwrap().len(), 0);
    assert_eq!(bin.read(1).err().unwrap().kind(), ErrorKind::OutOfBounds);
    assert_eq!(bin.position(), 81);
}

#[test]
fn read_of_a_huge_length_is_out_of_bounds() {
    let mut bin = open();
    bin.start_read_section(1, 1).unwrap();
    assert_eq!(bin.read(u64::MAX).err().unwrap(), BinFileError::OutOfBounds);
    assert_eq!(bin.read(u64::MAX - 78).err().unwrap(), BinFileError::OutOfBounds);
    assert_eq!(bin.read(1 << 32).err().unwrap(), BinFileError::OutOfBounds);
    assert_eq!(bin.read(3).err().unwrap(), BinFileError::OutOfBounds);
    assert_eq!(bin.position(), 79);
    assert_eq!(bin.reading_section(), Some(Section { offset: 79, size: 2 }));
    assert_eq!(bin.read(2).unwrap(), &[9u8, 8][..]);
    bin.end_read_section(true).unwrap();
}

#[test]
fn kinds_match_the_variants() {
    let all = [
        (
            BinFileError::InvalidType(InvalidFileType { expected: String::new(), found: vec![] }),
            ErrorKind::InvalidType,
        ),
        (
            BinFileError::UnsupportedVersion(InvalidVersion { max_version: 0, found_version: 1 }),
            ErrorKind::UnsupportedVersion,
        ),
        (BinFileError::Truncated, ErrorKind::Truncated),
        (BinFileError::SectionNotFound, ErrorKind::SectionNotFound),
        (BinFileError::IndexOutOfRange(RangeError::new(1, 1)), ErrorKind::IndexOutOfRange),
        (BinFileError::AlreadyReading, ErrorKind::AlreadyReading),
        (BinFileError::NoActiveSection, ErrorKind::NoActiveSection),
        (BinFileError::SectionSizeMismatch, ErrorKind::SectionSizeMismatch),
        (BinFileError::OutOfBounds, ErrorKind::OutOfBounds),
    ];
    for (error, kind) in all {
        assert_eq!(error.kind(), kind);
    }
    assert_eq!(RangeError::new(4, 2), RangeError { index: 4, count: 2 });
}
