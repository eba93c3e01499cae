//! The wire format, as mathematics.
//!
//! All integers are little-endian. A container is laid out as
//!
//! | offset | field         | width                 |
//! |--------|---------------|-----------------------|
//! | 0      | type tag      | 4 raw bytes           |
//! | 4      | version       | 4                     |
//! | 8      | section count | 4                     |
//! | 12     | sections      | back to back          |
//!
//! and a section as a 4-byte type, an 8-byte payload size, and the payload.

use crate::binfile_utils::Section;
use crate::error::ErrorKind;
use vstd::prelude::*;

verus! {

/// Width of the type tag.
pub const TAG_LEN: usize = 4;

/// Width of the fixed part of a container: tag, version, section count.
pub const HEADER_LEN: usize = 12;

/// Width of the type and size fields in front of each payload.
pub const RECORD_HEADER_LEN: usize = 12;

/// The unsigned number that the four bytes of `bytes` starting at `at` spell,
/// least significant byte first.
pub open spec fn le_u32(bytes: Seq<u8>, at: int) -> int
    recommends
        0 <= at,
        at + 4 <= bytes.len(),
{
    bytes[at] + 0x100 * bytes[at + 1] + 0x1_0000 * bytes[at + 2] + 0x100_0000 * bytes[at + 3]
}

/// The unsigned number that the eight bytes of `bytes` starting at `at` spell,
/// least significant byte first.
pub open spec fn le_u64(bytes: Seq<u8>, at: int) -> int
    recommends
        0 <= at,
        at + 8 <= bytes.len(),
{
    le_u32(bytes, at) + 0x1_0000_0000 * le_u32(bytes, at + 4)
}

/// One section as it stands in the byte stream: its type, and where its
/// payload lies.
pub struct Record {
    pub section_type: u32,
    pub section: Section,
}

/// The tag at the head of `bytes`.
pub open spec fn tag_of(bytes: Seq<u8>) -> Seq<u8>
    recommends
        TAG_LEN <= bytes.len(),
{
    bytes.subrange(0, TAG_LEN as int)
}

/// The version field of `bytes`.
pub open spec fn version_of(bytes: Seq<u8>) -> u32
    recommends
        8 <= bytes.len(),
{
    le_u32(bytes, 4) as u32
}

/// The section count field of `bytes`.
pub open spec fn count_of(bytes: Seq<u8>) -> nat
    recommends
        HEADER_LEN <= bytes.len(),
{
    le_u32(bytes, 8) as nat
}

/// The `count` sections that start at `pos`, in order of appearance, or `None`
/// where `bytes` ends before the last of them does.
///
/// A section is twelve bytes of type and size followed by `size` bytes of
/// payload; the next section starts right behind the payload.
pub open spec fn parse_records(bytes: Seq<u8>, pos: int, count: nat) -> Option<Seq<Record>>
    decreases count,
{
    if count == 0 {
        Some(Seq::empty())
    } else if pos + RECORD_HEADER_LEN > bytes.len() {
        None
    } else {
        let offset = pos + RECORD_HEADER_LEN;
        let size = le_u64(bytes, pos + 4);
        if offset + size > bytes.len() {
            None
        } else {
            let first = Record {
                section_type: le_u32(bytes, pos) as u32,
                section: Section { offset: offset as usize, size: size as u64 },
            };
            match parse_records(bytes, offset + size, (count - 1) as nat) {
                Some(rest) => Some(seq![first] + rest),
                None => None,
            }
        }
    }
}

/// What construction makes of `bytes`: the sections, or the kind of the
/// failure. The tag is checked first, then the version, then the sections; a
/// field that the buffer is too short to hold is `Truncated`.
pub open spec fn parse(bytes: Seq<u8>, expected: Seq<u8>, max_version: u32) -> Result<
    Seq<Record>,
    ErrorKind,
> {
    if bytes.len() < TAG_LEN {
        Err(ErrorKind::Truncated)
    } else if !(tag_of(bytes) =~= expected) {
        Err(ErrorKind::InvalidType)
    } else if bytes.len() < 8 {
        Err(ErrorKind::Truncated)
    } else if version_of(bytes) > max_version {
        Err(ErrorKind::UnsupportedVersion)
    } else if bytes.len() < HEADER_LEN {
        Err(ErrorKind::Truncated)
    } else {
        match parse_records(bytes, HEADER_LEN as int, count_of(bytes)) {
            Some(records) => Ok(records),
            None => Err(ErrorKind::Truncated),
        }
    }
}

/// The sections of one type among `records`, in order of appearance.
pub open spec fn sections_of(records: Seq<Record>, section_type: u32) -> Seq<Section>
    decreases records.len(),
{
    if records.len() == 0 {
        Seq::empty()
    } else {
        let earlier = sections_of(records.drop_last(), section_type);
        if records.last().section_type == section_type {
            earlier.push(records.last().section)
        } else {
            earlier
        }
    }
}

/// The index of `records` by type. A type is a key exactly if a section of
/// that type exists.
pub open spec fn section_index(records: Seq<Record>) -> Map<u32, Seq<Section>> {
    Map::new(
        |t: u32| sections_of(records, t).len() > 0,
        |t: u32| sections_of(records, t),
    )
}

/// An eight-byte little-endian number fits in 64 bits.
pub proof fn lemma_le_u64_range(bytes: Seq<u8>, at: int)
    ensures
        0 <= le_u64(bytes, at) <= u64::MAX,
{
}

/// Parsing succeeds only within the buffer: it yields as many records as were
/// asked for, and each payload lies behind `pos` and within `bytes`.
pub proof fn lemma_records_in_bounds(bytes: Seq<u8>, pos: int, count: nat)
    requires
        0 <= pos,
        bytes.len() <= usize::MAX,
        parse_records(bytes, pos, count) is Some,
    ensures
        parse_records(bytes, pos, count).unwrap().len() == count,
        forall|i: int|
            0 <= i < count ==> {
                let r = #[trigger] parse_records(bytes, pos, count).unwrap()[i];
                pos + RECORD_HEADER_LEN <= r.section.offset && r.section.end() <= bytes.len()
            },
    decreases count,
{
    if count > 0 {
        let next = pos + RECORD_HEADER_LEN + le_u64(bytes, pos + 4);
        lemma_le_u64_range(bytes, pos + 4);
        lemma_records_in_bounds(bytes, next, (count - 1) as nat);
        let rest = parse_records(bytes, next, (count - 1) as nat).unwrap();
        let records = parse_records(bytes, pos, count).unwrap();
        assert forall|i: int| 0 <= i < count implies {
            let r = #[trigger] records[i];
            pos + RECORD_HEADER_LEN <= r.section.offset && r.section.end() <= bytes.len()
        } by {
            if i > 0 {
                assert(records[i] == rest[i - 1]);
            }
        }
    }
}

/// No type lists more sections than there are records, and where every record
/// ends within `limit`, so does every section that the index lists.
pub proof fn lemma_sections_of_in_bounds(records: Seq<Record>, section_type: u32, limit: int)
    requires
        forall|i: int| 0 <= i < records.len() ==> (#[trigger] records[i]).section.end() <= limit,
    ensures
        sections_of(records, section_type).len() <= records.len(),
        forall|k: int|
            0 <= k < sections_of(records, section_type).len() ==> (#[trigger] sections_of(
                records,
                section_type,
            )[k]).end() <= limit,
    decreases records.len(),
{
    if records.len() > 0 {
        let init = records.drop_last();
        assert forall|i: int| 0 <= i < init.len() implies (#[trigger] init[i]).section.end()
            <= limit by {
            assert(init[i] == records[i]);
        }
        lemma_sections_of_in_bounds(init, section_type, limit);
        assert(records.last() == records[records.len() - 1]);
    }
}

/// A type that no record carries has no sections in the index.
pub proof fn lemma_sections_of_absent(records: Seq<Record>, section_type: u32)
    requires
        forall|i: int| 0 <= i < records.len() ==> (#[trigger] records[i]).section_type != section_type,
    ensures
        sections_of(records, section_type).len() == 0,
    decreases records.len(),
{
    if records.len() > 0 {
        let init = records.drop_last();
        assert forall|i: int| 0 <= i < init.len() implies (#[trigger] init[i]).section_type
            != section_type by {
            assert(init[i] == records[i]);
        }
        lemma_sections_of_absent(init, section_type);
        assert(records.last() == records[records.len() - 1]);
    }
}

/// A type that some record carries has a section in the index.
pub proof fn lemma_sections_of_present(records: Seq<Record>, i: int)
    requires
        0 <= i < records.len(),
    ensures
        sections_of(records, records[i].section_type).len() > 0,
    decreases records.len(),
{
    if i < records.len() - 1 {
        assert(records.drop_last()[i] == records[i]);
        lemma_sections_of_present(records.drop_last(), i);
    }
}

} // verus!
