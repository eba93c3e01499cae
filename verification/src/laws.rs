//! Laws of the container, proved over its model.
//!
//! The executable functions of [`BinFile`](crate::binfile_utils::BinFile)
//! promise that they behave as the model of
//! [`BinFileView`](crate::binfile_utils::BinFileView) says. What is proved here
//! of the model therefore holds of every container at run time.
//!
//! The laws speak of a container that [`encode`] writes down, of the
//! container that construction makes of a buffer
//! ([`BinFileView::opened`]), and of the steps `start`, `read` and `end` of the
//! sequential cursor.

use crate::binfile_utils::{BinFileView, Section};
use crate::error::ErrorKind;
use crate::encoding::{
    encodable, encode, encode_records, lemma_first_payload, lemma_index_matches_payloads,
    lemma_le_u32_decodes, lemma_parse_cut_short, lemma_parse_encoded, payloads_of, u32_le_bytes,
};
use crate::format::{
    count_of, lemma_records_in_bounds, lemma_sections_of_absent, lemma_sections_of_in_bounds,
    lemma_sections_of_present, parse, parse_records, sections_of, tag_of, version_of, Record,
    HEADER_LEN,
};
use vstd::prelude::*;

verus! {

/// The container after the reads of the lengths `reads`, one after the other,
/// or `None` where one of them runs out of bounds.
pub open spec fn after_reads(c: BinFileView, reads: Seq<u64>) -> Option<BinFileView>
    decreases reads.len(),
{
    if reads.len() == 0 {
        Some(c)
    } else {
        match after_reads(c, reads.drop_last()) {
            Some(earlier) => match earlier.read(reads.last()) {
                Ok(next) => Some(next),
                Err(_) => None,
            },
            None => None,
        }
    }
}

/// The number of bytes that the reads of the lengths `reads` consume.
pub open spec fn total(reads: Seq<u64>) -> int
    decreases reads.len(),
{
    if reads.len() == 0 {
        0
    } else {
        total(reads.drop_last()) + reads.last()
    }
}

/// Two containers hold the same bytes and the same sections.
pub open spec fn same_structure(a: BinFileView, b: BinFileView) -> bool {
    &&& a.buffer == b.buffer
    &&& a.type_tag == b.type_tag
    &&& a.version == b.version
    &&& a.sections == b.sections
}

/// A buffer that parses gives a well-formed container: idle, with the cursor
/// at the start, the expected tag, a supported version, and every section
/// within the buffer.
pub proof fn lemma_opened_is_well_formed(bytes: Seq<u8>, expected: Seq<u8>, max_version: u32)
    requires
        bytes.len() <= usize::MAX,
        parse(bytes, expected, max_version) is Ok,
    ensures
        BinFileView::opened(bytes).wf(),
        BinFileView::opened(bytes).type_tag == expected,
        BinFileView::opened(bytes).version <= max_version,
        BinFileView::opened(bytes).cursor == 0,
        BinFileView::opened(bytes).active_session is None,
{
    let v = BinFileView::opened(bytes);
    let count = count_of(bytes);
    let records = parse_records(bytes, HEADER_LEN as int, count).unwrap();
    lemma_records_in_bounds(bytes, HEADER_LEN as int, count);
    assert forall|t: u32, i: int|
        v.sections.contains_key(t) && 0 <= i < v.sections[t].len() implies (
    #[trigger] v.sections[t][i]).end() <= v.buffer.len() by {
        lemma_sections_of_in_bounds(records, t, bytes.len() as int);
    }
}

/// The header fields of an encoded container read back as they were written.
proof fn lemma_header_decodes(tag: Seq<u8>, version: u32, sections: Seq<(u32, Seq<u8>)>)
    requires
        encodable(tag, sections),
    ensures
        encode(tag, version, sections).len() == HEADER_LEN + encode_records(sections).len(),
        tag_of(encode(tag, version, sections)) == tag,
        version_of(encode(tag, version, sections)) == version,
        count_of(encode(tag, version, sections)) == sections.len(),
        encode(tag, version, sections).subrange(
            HEADER_LEN as int,
            encode(tag, version, sections).len() as int,
        ) == encode_records(sections),
{
    let bytes = encode(tag, version, sections);
    assert(tag_of(bytes) =~= tag);
    assert(bytes.subrange(4, 8) =~= u32_le_bytes(version));
    assert(bytes.subrange(8, 12) =~= u32_le_bytes(sections.len() as u32));
    lemma_le_u32_decodes(bytes, 4, version);
    lemma_le_u32_decodes(bytes, 8, sections.len() as u32);
    assert(bytes.subrange(HEADER_LEN as int, bytes.len() as int) =~= encode_records(sections));
}

/// A container made of the sections `(type, payload)` in the given order
/// hands every payload back: the `k`-th section of a type is the `k`-th payload
/// that was written with that type, with its bytes and its length.
pub proof fn lemma_round_trip(
    tag: Seq<u8>,
    version: u32,
    max_version: u32,
    sections: Seq<(u32, Seq<u8>)>,
    section_type: u32,
    k: u32,
)
    requires
        encodable(tag, sections),
        version <= max_version,
        encode(tag, version, sections).len() <= usize::MAX,
        k < payloads_of(sections, section_type).len(),
    ensures
        parse(encode(tag, version, sections), tag, max_version) is Ok,
        ({
            let c = BinFileView::opened(encode(tag, version, sections));
            &&& c.wf()
            &&& c.lookup(section_type, k) matches Ok(s)
            &&& s.size == payloads_of(sections, section_type)[k as int].len()
            &&& s.payload(c.buffer) == payloads_of(sections, section_type)[k as int]
        }),
{
    let bytes = encode(tag, version, sections);
    lemma_header_decodes(tag, version, sections);
    lemma_parse_encoded(bytes, HEADER_LEN as int, sections);
    let records = parse_records(bytes, HEADER_LEN as int, sections.len()).unwrap();
    lemma_opened_is_well_formed(bytes, tag, max_version);
    lemma_index_matches_payloads(bytes, records, sections, section_type);
    let s = sections_of(records, section_type)[k as int];
    assert(s.payload(bytes).len() == s.size) by {
        let c = BinFileView::opened(bytes);
        assert(c.sections.contains_key(section_type));
        assert(c.sections[section_type][k as int].end() <= bytes.len());
    }
}

/// Where no earlier section has the type of the `i`-th, index 0 of that type
/// hands back the `i`-th payload and its length. In a container whose sections
/// all differ in type, this holds of every section.
pub proof fn lemma_round_trip_first(
    tag: Seq<u8>,
    version: u32,
    max_version: u32,
    sections: Seq<(u32, Seq<u8>)>,
    i: int,
)
    requires
        encodable(tag, sections),
        version <= max_version,
        encode(tag, version, sections).len() <= usize::MAX,
        0 <= i < sections.len(),
        forall|j: int| 0 <= j < i ==> (#[trigger] sections[j]).0 != sections[i].0,
    ensures
        ({
            let c = BinFileView::opened(encode(tag, version, sections));
            &&& c.lookup(sections[i].0, 0) matches Ok(s)
            &&& s.size == sections[i].1.len()
            &&& s.payload(c.buffer) == sections[i].1
        }),
{
    lemma_first_payload(sections, i);
    lemma_round_trip(tag, version, max_version, sections, sections[i].0, 0);
}

/// A container that is cut off anywhere before its end is refused as
/// `Truncated`: no section is accepted whose payload the buffer does not hold
/// in full.
pub proof fn lemma_cut_container_is_truncated(
    tag: Seq<u8>,
    version: u32,
    max_version: u32,
    sections: Seq<(u32, Seq<u8>)>,
    cut: int,
)
    requires
        encodable(tag, sections),
        version <= max_version,
        0 <= cut < encode(tag, version, sections).len(),
    ensures
        parse(encode(tag, version, sections).subrange(0, cut), tag, max_version) == Err::<
            Seq<Record>,
            ErrorKind,
        >(ErrorKind::Truncated),
{
    let full = encode(tag, version, sections);
    let bytes = full.subrange(0, cut);
    lemma_header_decodes(tag, version, sections);
    if cut >= 4 {
        assert(tag_of(bytes) =~= tag_of(full));
    }
    if cut >= 8 {
        assert(bytes.subrange(4, 8) =~= u32_le_bytes(version)) by {
            assert(full.subrange(4, 8) =~= u32_le_bytes(version));
        }
        lemma_le_u32_decodes(bytes, 4, version);
    }
    if cut >= HEADER_LEN {
        assert(bytes.subrange(8, 12) =~= u32_le_bytes(sections.len() as u32)) by {
            assert(full.subrange(8, 12) =~= u32_le_bytes(sections.len() as u32));
        }
        lemma_le_u32_decodes(bytes, 8, sections.len() as u32);
        assert(bytes.subrange(HEADER_LEN as int, cut) =~= encode_records(sections).subrange(
            0,
            cut - HEADER_LEN,
        )) by {
            assert(full.subrange(HEADER_LEN as int, full.len() as int) == encode_records(
                sections,
            ));
        }
        lemma_parse_cut_short(bytes, HEADER_LEN as int, sections);
    }
}

/// A type that no section of the buffer carries is not found, whatever the
/// index; a type that some section carries is found at index 0.
pub proof fn lemma_lookup_finds_types_present(bytes: Seq<u8>, section_type: u32, section_pos: u32)
    requires
        parse_records(bytes, HEADER_LEN as int, count_of(bytes)) is Some,
    ensures
        ({
            let records = parse_records(bytes, HEADER_LEN as int, count_of(bytes)).unwrap();
            let c = BinFileView::opened(bytes);
            &&& (forall|i: int|
                0 <= i < records.len() ==> (#[trigger] records[i]).section_type != section_type)
                ==> c.lookup(section_type, section_pos) == Err::<Section, ErrorKind>(
                ErrorKind::SectionNotFound,
            )
            &&& (exists|i: int|
                0 <= i < records.len() && (#[trigger] records[i]).section_type == section_type)
                ==> c.lookup(section_type, 0) is Ok
        }),
{
    let records = parse_records(bytes, HEADER_LEN as int, count_of(bytes)).unwrap();
    if forall|i: int|
        0 <= i < records.len() ==> (#[trigger] records[i]).section_type != section_type {
        lemma_sections_of_absent(records, section_type);
    }
    if exists|i: int|
        0 <= i < records.len() && (#[trigger] records[i]).section_type == section_type {
        let i = choose|i: int|
            0 <= i < records.len() && (#[trigger] records[i]).section_type == section_type;
        lemma_sections_of_present(records, i);
    }
}

/// Where a type has exactly `count` sections, the index `count` is out of
/// range and the index `count - 1` is served; in general an index is served
/// exactly if it is below `count`. A type that is listed has at least one
/// section.
pub proof fn lemma_index_exhaustion(c: BinFileView, section_type: u32, count: u32)
    requires
        c.wf(),
        c.sections.contains_key(section_type),
        c.sections[section_type].len() == count,
    ensures
        count >= 1,
        c.lookup(section_type, count) == Err::<Section, ErrorKind>(ErrorKind::IndexOutOfRange),
        c.lookup(section_type, (count - 1) as u32) == Ok::<Section, ErrorKind>(
            c.sections[section_type][count - 1],
        ),
        forall|index: u32|
            c.lookup(section_type, index) is Ok <==> index < count,
{
}

/// Once a sequential read is open, a second start fails with
/// `AlreadyReading`, whatever it asks for and however many reads have been
/// made in between; the first session stays as it was.
pub proof fn lemma_session_is_exclusive(
    c: BinFileView,
    section_id: u32,
    section_pos: u32,
    reads: Seq<u64>,
    other_id: u32,
    other_pos: u32,
)
    requires
        c.start(section_id, section_pos) is Ok,
        after_reads(c.start(section_id, section_pos).unwrap(), reads) is Some,
    ensures
        ({
            let opened = c.start(section_id, section_pos).unwrap();
            let current = after_reads(opened, reads).unwrap();
            &&& current.start(other_id, other_pos) == Err::<BinFileView, ErrorKind>(
                ErrorKind::AlreadyReading,
            )
            &&& current.active_session == opened.active_session
            &&& current.active_session == Some(c.lookup(section_id, section_pos).unwrap())
        }),
    decreases reads.len(),
{
    if reads.len() > 0 {
        lemma_session_is_exclusive(
            c,
            section_id,
            section_pos,
            reads.drop_last(),
            other_id,
            other_pos,
        );
    }
}

/// Reads that succeed move the cursor forward by their total, and change
/// nothing else.
pub proof fn lemma_reads_advance_cursor(c: BinFileView, reads: Seq<u64>)
    requires
        after_reads(c, reads) is Some,
    ensures
        after_reads(c, reads).unwrap() == (BinFileView { cursor: c.cursor + total(reads), ..c }),
        total(reads) >= 0,
    decreases reads.len(),
{
    if reads.len() > 0 {
        lemma_reads_advance_cursor(c, reads.drop_last());
    }
}

/// After a session was opened on a section, a verified end succeeds if the
/// reads made since consumed exactly the declared size, and fails with
/// `SectionSizeMismatch` if they consumed more or less; an unverified end
/// succeeds either way. A single read of the declared size is always within
/// bounds.
pub proof fn lemma_verified_end_checks_size(
    c: BinFileView,
    section_id: u32,
    section_pos: u32,
    reads: Seq<u64>,
)
    requires
        c.wf(),
        c.start(section_id, section_pos) is Ok,
        after_reads(c.start(section_id, section_pos).unwrap(), reads) is Some,
    ensures
        ({
            let s = c.lookup(section_id, section_pos).unwrap();
            let opened = c.start(section_id, section_pos).unwrap();
            let current = after_reads(opened, reads).unwrap();
            &&& opened.read(s.size) is Ok
            &&& total(reads) == s.size ==> current.end(true) == Ok::<BinFileView, ErrorKind>(
                BinFileView { active_session: None, ..current },
            )
            &&& total(reads) != s.size ==> current.end(true) == Err::<BinFileView, ErrorKind>(
                ErrorKind::SectionSizeMismatch,
            )
            &&& current.end(false) is Ok
        }),
{
    let opened = c.start(section_id, section_pos).unwrap();
    lemma_reads_advance_cursor(opened, reads);
}

/// Every transition keeps a well-formed container well-formed, leaves the
/// buffer, the tag, the version and the sections as they are, and never moves
/// the cursor backwards except to the start of a section at a start.
pub proof fn lemma_transitions_keep_invariants(
    c: BinFileView,
    section_id: u32,
    section_pos: u32,
    len: u64,
    verify: bool,
)
    requires
        c.wf(),
    ensures
        c.start(section_id, section_pos) matches Ok(next) ==> next.wf() && same_structure(c, next)
            && next.cursor == c.lookup(section_id, section_pos).unwrap().offset,
        c.read(len) matches Ok(next) ==> next.wf() && same_structure(c, next) && next.cursor
            == c.cursor + len && next.active_session == c.active_session,
        c.end(verify) matches Ok(next) ==> next.wf() && same_structure(c, next) && next.cursor
            == c.cursor && next.active_session is None,
{
    if c.start(section_id, section_pos) is Ok {
        let next = c.start(section_id, section_pos).unwrap();
        let s = c.lookup(section_id, section_pos).unwrap();
        assert(next.sections[section_id][section_pos as int] == s);
        assert(next.describes(s));
    }
}

} // verus!
