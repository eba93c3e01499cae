//! Writing a container down, as mathematics.
//!
//! This crate reads containers and has no code that writes one. What stands
//! here says which bytes a container with given sections is made of, so that
//! reading can be held against it: parsing the bytes of a container gives its
//! sections back, and parsing less than all of its bytes fails.

use crate::format::{
    le_u32, le_u64, parse_records, sections_of, Record, RECORD_HEADER_LEN, TAG_LEN,
};
use vstd::prelude::*;

verus! {

/// The four bytes that spell `x`, least significant first.
pub open spec fn u32_le_bytes(x: u32) -> Seq<u8> {
    seq![
        (x % 0x100) as u8,
        (x / 0x100 % 0x100) as u8,
        (x / 0x1_0000 % 0x100) as u8,
        (x / 0x100_0000) as u8,
    ]
}

/// The eight bytes that spell `x`, least significant first.
pub open spec fn u64_le_bytes(x: u64) -> Seq<u8> {
    u32_le_bytes((x % 0x1_0000_0000) as u32) + u32_le_bytes((x / 0x1_0000_0000) as u32)
}

/// The bytes of a run of sections, each given as its type and its payload.
pub open spec fn encode_records(sections: Seq<(u32, Seq<u8>)>) -> Seq<u8>
    decreases sections.len(),
{
    if sections.len() == 0 {
        Seq::empty()
    } else {
        u32_le_bytes(sections.first().0) + u64_le_bytes(sections.first().1.len() as u64)
            + sections.first().1 + encode_records(sections.drop_first())
    }
}

/// The bytes of the container with the given tag, version and sections.
pub open spec fn encode(tag: Seq<u8>, version: u32, sections: Seq<(u32, Seq<u8>)>) -> Seq<u8> {
    tag + u32_le_bytes(version) + u32_le_bytes(sections.len() as u32) + encode_records(sections)
}

/// Whether a container with these parts can be written down: a tag of four
/// bytes, a section count and payload sizes that fit their fields.
pub open spec fn encodable(tag: Seq<u8>, sections: Seq<(u32, Seq<u8>)>) -> bool {
    &&& tag.len() == TAG_LEN
    &&& sections.len() <= u32::MAX
    &&& forall|i: int| 0 <= i < sections.len() ==> (#[trigger] sections[i]).1.len() <= u64::MAX
}

/// The payloads of one type among `sections`, in order of appearance.
pub open spec fn payloads_of(sections: Seq<(u32, Seq<u8>)>, section_type: u32) -> Seq<Seq<u8>>
    decreases sections.len(),
{
    if sections.len() == 0 {
        Seq::empty()
    } else {
        let earlier = payloads_of(sections.drop_last(), section_type);
        if sections.last().0 == section_type {
            earlier.push(sections.last().1)
        } else {
            earlier
        }
    }
}

/// Decoding undoes encoding, wherever in a buffer the four bytes stand.
pub proof fn lemma_le_u32_decodes(bytes: Seq<u8>, at: int, x: u32)
    requires
        0 <= at,
        at + 4 <= bytes.len(),
        bytes.subrange(at, at + 4) == u32_le_bytes(x),
    ensures
        le_u32(bytes, at) == x,
{
    let field = bytes.subrange(at, at + 4);
    assert(field[0] == bytes[at] && field[1] == bytes[at + 1] && field[2] == bytes[at + 2]
        && field[3] == bytes[at + 3]);
}

/// Decoding undoes encoding, wherever in a buffer the eight bytes stand.
pub proof fn lemma_le_u64_decodes(bytes: Seq<u8>, at: int, x: u64)
    requires
        0 <= at,
        at + 8 <= bytes.len(),
        bytes.subrange(at, at + 8) == u64_le_bytes(x),
    ensures
        le_u64(bytes, at) == x,
{
    let low = (x % 0x1_0000_0000) as u32;
    let high = (x / 0x1_0000_0000) as u32;
    let field = bytes.subrange(at, at + 8);
    assert(bytes.subrange(at, at + 4) =~= field.subrange(0, 4));
    assert(bytes.subrange(at + 4, at + 8) =~= field.subrange(4, 8));
    assert(field.subrange(0, 4) =~= u32_le_bytes(low));
    assert(field.subrange(4, 8) =~= u32_le_bytes(high));
    lemma_le_u32_decodes(bytes, at, low);
    lemma_le_u32_decodes(bytes, at + 4, high);
}

/// What was encoded is what is parsed: at `pos`, where the encoded sections
/// begin and run to the end of `bytes`, parsing yields one record for each
/// section, with its type, its size and its payload.
pub proof fn lemma_parse_encoded(bytes: Seq<u8>, pos: int, sections: Seq<(u32, Seq<u8>)>)
    requires
        0 <= pos <= bytes.len() <= usize::MAX,
        bytes.subrange(pos, bytes.len() as int) == encode_records(sections),
        forall|i: int| 0 <= i < sections.len() ==> (#[trigger] sections[i]).1.len() <= u64::MAX,
    ensures
        parse_records(bytes, pos, sections.len()) matches Some(records) && {
            &&& records.len() == sections.len()
            &&& forall|i: int|
                0 <= i < sections.len() ==> {
                    &&& (#[trigger] records[i]).section_type == sections[i].0
                    &&& records[i].section.size == sections[i].1.len()
                    &&& records[i].section.end() <= bytes.len()
                    &&& records[i].section.payload(bytes) == sections[i].1
                }
        },
    decreases sections.len(),
{
    if sections.len() > 0 {
        let section_type = sections.first().0;
        let payload = sections.first().1;
        let later = sections.drop_first();
        let tail = bytes.subrange(pos, bytes.len() as int);
        let offset = pos + RECORD_HEADER_LEN;
        let next = offset + payload.len();
        let body = (12 + payload.len()) as int;
        assert(tail.len() == RECORD_HEADER_LEN + payload.len() + encode_records(later).len());
        assert(bytes.subrange(pos, pos + 4) =~= u32_le_bytes(section_type)) by {
            assert(tail.subrange(0, 4) =~= u32_le_bytes(section_type));
            assert(bytes.subrange(pos, pos + 4) =~= tail.subrange(0, 4));
        }
        assert(bytes.subrange(pos + 4, pos + 12) =~= u64_le_bytes(payload.len() as u64)) by {
            assert(tail.subrange(4, 12) =~= u64_le_bytes(payload.len() as u64));
            assert(bytes.subrange(pos + 4, pos + 12) =~= tail.subrange(4, 12));
        }
        lemma_le_u32_decodes(bytes, pos, section_type);
        lemma_le_u64_decodes(bytes, pos + 4, payload.len() as u64);
        assert(bytes.subrange(offset, next) =~= payload) by {
            assert(tail.subrange(12, body) =~= payload);
            assert(bytes.subrange(offset, next) =~= tail.subrange(12, body));
        }
        assert(bytes.subrange(next, bytes.len() as int) =~= encode_records(later)) by {
            assert(tail.subrange(body, tail.len() as int) =~= encode_records(later));
            assert(bytes.subrange(next, bytes.len() as int) =~= tail.subrange(
                body,
                tail.len() as int,
            ));
        }
        assert forall|i: int| 0 <= i < later.len() implies (#[trigger] later[i]).1.len()
            <= u64::MAX by {
            assert(later[i] == sections[i + 1]);
        }
        lemma_parse_encoded(bytes, next, later);
        let rest = parse_records(bytes, next, later.len()).unwrap();
        let records = parse_records(bytes, pos, sections.len()).unwrap();
        assert forall|i: int| 0 <= i < sections.len() implies {
            &&& (#[trigger] records[i]).section_type == sections[i].0
            &&& records[i].section.size == sections[i].1.len()
            &&& records[i].section.end() <= bytes.len()
            &&& records[i].section.payload(bytes) == sections[i].1
        } by {
            if i > 0 {
                assert(records[i] == rest[i - 1]);
                assert(sections[i] == later[i - 1]);
            }
        }
    }
}

/// A buffer that ends before the encoded sections do is not parsed: where
/// the bytes from `pos` on are a proper prefix of the encoding, parsing fails.
pub proof fn lemma_parse_cut_short(bytes: Seq<u8>, pos: int, sections: Seq<(u32, Seq<u8>)>)
    requires
        0 <= pos <= bytes.len(),
        bytes.len() - pos < encode_records(sections).len(),
        bytes.subrange(pos, bytes.len() as int) == encode_records(sections).subrange(
            0,
            bytes.len() - pos,
        ),
        forall|i: int| 0 <= i < sections.len() ==> (#[trigger] sections[i]).1.len() <= u64::MAX,
    ensures
        parse_records(bytes, pos, sections.len()) is None,
    decreases sections.len(),
{
    let available = bytes.len() - pos;
    if sections.len() > 0 && available >= RECORD_HEADER_LEN {
        let section_type = sections.first().0;
        let payload = sections.first().1;
        let later = sections.drop_first();
        let full = encode_records(sections);
        let tail = bytes.subrange(pos, bytes.len() as int);
        let offset = pos + RECORD_HEADER_LEN;
        let next = offset + payload.len();
        let body = (12 + payload.len()) as int;
        assert(full.len() == body + encode_records(later).len());
        assert(bytes.subrange(pos + 4, pos + 12) =~= u64_le_bytes(payload.len() as u64)) by {
            assert(full.subrange(4, 12) =~= u64_le_bytes(payload.len() as u64));
            assert(tail.subrange(4, 12) =~= full.subrange(4, 12));
            assert(bytes.subrange(pos + 4, pos + 12) =~= tail.subrange(4, 12));
        }
        lemma_le_u64_decodes(bytes, pos + 4, payload.len() as u64);
        if next <= bytes.len() {
            assert(bytes.subrange(next, bytes.len() as int) =~= encode_records(later).subrange(
                0,
                bytes.len() - next,
            )) by {
                assert(full.subrange(body, full.len() as int) =~= encode_records(later));
                assert(bytes.subrange(next, bytes.len() as int) =~= tail.subrange(
                    body,
                    tail.len() as int,
                ));
            }
            assert forall|i: int| 0 <= i < later.len() implies (#[trigger] later[i]).1.len()
                <= u64::MAX by {
                assert(later[i] == sections[i + 1]);
            }
            lemma_parse_cut_short(bytes, next, later);
        }
    }
}

/// Where records and sections agree one by one in type and payload, the index
/// lists under each type the payloads that were written with that type, in the
/// order in which they were written.
pub proof fn lemma_index_matches_payloads(
    bytes: Seq<u8>,
    records: Seq<Record>,
    sections: Seq<(u32, Seq<u8>)>,
    section_type: u32,
)
    requires
        records.len() == sections.len(),
        forall|i: int|
            0 <= i < sections.len() ==> (#[trigger] records[i]).section_type == sections[i].0
                && records[i].section.payload(bytes) == sections[i].1,
    ensures
        sections_of(records, section_type).len() == payloads_of(sections, section_type).len(),
        forall|k: int|
            0 <= k < sections_of(records, section_type).len() ==> (#[trigger] sections_of(
                records,
                section_type,
            )[k]).payload(bytes) == payloads_of(sections, section_type)[k],
    decreases records.len(),
{
    if records.len() > 0 {
        let last = records.len() - 1;
        assert(records.drop_last().len() == sections.drop_last().len());
        assert forall|i: int| 0 <= i < sections.drop_last().len() implies (
        #[trigger] records.drop_last()[i]).section_type == sections.drop_last()[i].0
            && records.drop_last()[i].section.payload(bytes) == sections.drop_last()[i].1 by {
            assert(records.drop_last()[i] == records[i]);
            assert(sections.drop_last()[i] == sections[i]);
        }
        lemma_index_matches_payloads(bytes, records.drop_last(), sections.drop_last(), section_type);
        assert(records[last].section_type == sections[last].0);
    }
}

/// A type that no section carries has no payloads.
pub proof fn lemma_payloads_of_absent(sections: Seq<(u32, Seq<u8>)>, section_type: u32)
    requires
        forall|i: int| 0 <= i < sections.len() ==> (#[trigger] sections[i]).0 != section_type,
    ensures
        payloads_of(sections, section_type).len() == 0,
    decreases sections.len(),
{
    if sections.len() > 0 {
        let init = sections.drop_last();
        assert forall|i: int| 0 <= i < init.len() implies (#[trigger] init[i]).0
            != section_type by {
            assert(init[i] == sections[i]);
        }
        lemma_payloads_of_absent(init, section_type);
        assert(sections.last() == sections[sections.len() - 1]);
    }
}

/// Where no earlier section has the type of the `i`-th, the payload of the
/// `i`-th is the first of its type.
pub proof fn lemma_first_payload(sections: Seq<(u32, Seq<u8>)>, i: int)
    requires
        0 <= i < sections.len(),
        forall|j: int| 0 <= j < i ==> (#[trigger] sections[j]).0 != sections[i].0,
    ensures
        payloads_of(sections, sections[i].0).len() > 0,
        payloads_of(sections, sections[i].0)[0] == sections[i].1,
    decreases sections.len(),
{
    let init = sections.drop_last();
    if i < sections.len() - 1 {
        assert(init[i] == sections[i]);
        assert forall|j: int| 0 <= j < i implies (#[trigger] init[j]).0 != init[i].0 by {
            assert(init[j] == sections[j]);
        }
        lemma_first_payload(init, i);
    } else {
        lemma_payloads_of_absent(init, sections[i].0);
    }
}

} // verus!
