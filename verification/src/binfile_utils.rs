//! The container: parsing, random access and the sequential cursor.

use crate::error::{BinFileError, ErrorKind, InvalidFileType, InvalidVersion, RangeError};
use crate::format::{
    count_of, le_u32, le_u64, parse, parse_records, section_index, sections_of, tag_of,
    version_of, Record, HEADER_LEN, RECORD_HEADER_LEN, TAG_LEN,
};
use std::collections::HashMap;
use vstd::prelude::*;
use vstd::slice::{slice_subrange, slice_to_vec};
use vstd::string::StringSliceAdditionalSpecFns;

verus! {

/// Where the payload of one section lies: `size` bytes from `offset` on,
/// counted from the start of the buffer.
#[derive(Clone, Copy, Debug, PartialEq, Eq, Structural)]
pub struct Section {
    pub offset: usize,
    pub size: u64,
}

impl Section {
    /// The position right behind the payload.
    pub open spec fn end(self) -> int {
        self.offset + self.size
    }

    /// The payload, read from `buffer`.
    pub open spec fn payload(self, buffer: Seq<u8>) -> Seq<u8> {
        buffer.subrange(self.offset as int, self.end())
    }
}

/// The container as a mathematical value.
pub struct BinFileView {
    /// The bytes the container was made from.
    pub buffer: Seq<u8>,
    /// The tag at the head of the buffer.
    pub type_tag: Seq<u8>,
    /// The version in the header.
    pub version: u32,
    /// The sections of each type, in order of appearance.
    pub sections: Map<u32, Seq<Section>>,
    /// Where the next sequential read starts.
    pub cursor: int,
    /// The section of the open sequential read, if one is open.
    pub active_session: Option<Section>,
}

impl BinFileView {
    /// `section` is one of the container's sections.
    pub open spec fn describes(self, section: Section) -> bool {
        exists|t: u32, i: int|
            self.sections.contains_key(t) && 0 <= i < self.sections[t].len()
                && #[trigger] self.sections[t][i] == section
    }

    /// What holds of every container, from construction on.
    pub open spec fn wf(self) -> bool {
        &&& HEADER_LEN <= self.buffer.len() <= usize::MAX
        &&& self.type_tag == tag_of(self.buffer)
        &&& self.version == version_of(self.buffer)
        &&& parse_records(self.buffer, HEADER_LEN as int, count_of(self.buffer)) matches Some(
            records,
        ) && self.sections == section_index(records)
        &&& forall|t: u32, i: int|
            self.sections.contains_key(t) && 0 <= i < self.sections[t].len() ==> (
            #[trigger] self.sections[t][i]).end() <= self.buffer.len()
        &&& 0 <= self.cursor <= self.buffer.len()
        &&& self.active_session matches Some(s) ==> self.describes(s) && s.offset <= self.cursor
    }

    /// The container right after construction from `bytes`.
    pub open spec fn opened(bytes: Seq<u8>) -> BinFileView {
        BinFileView {
            buffer: bytes,
            type_tag: tag_of(bytes),
            version: version_of(bytes),
            sections: section_index(
                parse_records(bytes, HEADER_LEN as int, count_of(bytes)).unwrap(),
            ),
            cursor: 0,
            active_session: None,
        }
    }

    /// The `section_pos`-th section of type `section_id`.
    pub open spec fn lookup(self, section_id: u32, section_pos: u32) -> Result<Section, ErrorKind> {
        if !self.sections.contains_key(section_id) {
            Err(ErrorKind::SectionNotFound)
        } else if section_pos >= self.sections[section_id].len() {
            Err(ErrorKind::IndexOutOfRange)
        } else {
            Ok(self.sections[section_id][section_pos as int])
        }
    }

    /// Opening a sequential read: only while none is open, and only on a
    /// section that exists; the cursor moves to the start of its payload.
    pub open spec fn start(self, section_id: u32, section_pos: u32) -> Result<
        BinFileView,
        ErrorKind,
    > {
        if self.active_session is Some {
            Err(ErrorKind::AlreadyReading)
        } else {
            match self.lookup(section_id, section_pos) {
                Ok(s) => Ok(
                    BinFileView { cursor: s.offset as int, active_session: Some(s), ..self },
                ),
                Err(k) => Err(k),
            }
        }
    }

    /// The bytes that a read of `len` bytes hands out.
    pub open spec fn window(self, len: u64) -> Seq<u8> {
        self.buffer.subrange(self.cursor, self.cursor + len)
    }

    /// Reading `len` bytes: only while they lie within the buffer; the cursor
    /// moves past them.
    pub open spec fn read(self, len: u64) -> Result<BinFileView, ErrorKind> {
        if self.cursor + len > self.buffer.len() {
            Err(ErrorKind::OutOfBounds)
        } else {
            Ok(BinFileView { cursor: self.cursor + len, ..self })
        }
    }

    /// Closing the sequential read: only while one is open and, where `verify`
    /// is set, only if the bytes consumed since it was opened are exactly the
    /// declared size.
    pub open spec fn end(self, verify: bool) -> Result<BinFileView, ErrorKind> {
        match self.active_session {
            None => Err(ErrorKind::NoActiveSection),
            Some(s) => if verify && self.cursor - s.offset != s.size {
                Err(ErrorKind::SectionSizeMismatch)
            } else {
                Ok(BinFileView { active_session: None, ..self })
            },
        }
    }
}

/// The sections of each type as sequences, from the index as it is stored.
spec fn index_view(index: Map<u32, Vec<Section>>) -> Map<u32, Seq<Section>> {
    Map::new(|t: u32| index.contains_key(t), |t: u32| index[t]@)
}

/// A parsed container. It owns a copy of the bytes it was made from, and
/// resolves every section against that copy at the time of access.
pub struct BinFile {
    buffer: Vec<u8>,
    type_tag: Vec<u8>,
    version: u32,
    sections: HashMap<u32, Vec<Section>>,
    cursor: usize,
    active_session: Option<Section>,
}

impl View for BinFile {
    type V = BinFileView;

    closed spec fn view(&self) -> BinFileView {
        BinFileView {
            buffer: self.buffer@,
            type_tag: self.type_tag@,
            version: self.version,
            sections: index_view(self.sections@),
            cursor: self.cursor as int,
            active_session: self.active_session,
        }
    }
}

/// Whether two byte strings are the same.
fn bytes_equal(a: &[u8], b: &[u8]) -> (same: bool)
    ensures
        same <==> a@ =~= b@,
{
    if a.len() != b.len() {
        return false;
    }
    let mut i: usize = 0;
    while i < a.len()
        invariant
            a@.len() == b@.len(),
            i <= a@.len(),
            forall|j: int| 0 <= j < i ==> a@[j] == b@[j],
        decreases a@.len() - i,
    {
        if a[i] != b[i] {
            return false;
        }
        i += 1;
    }
    true
}

impl BinFile {
    #[verifier::type_invariant]
    spec fn inv(&self) -> bool {
        self@.wf()
    }

    /// Parses `file_data` as a container whose tag is `expected_type` and whose
    /// version is at most `max_version`.
    ///
    /// The container is made of `file_data` as a whole. `file_size` is the
    /// length that the supplier of the bytes declares; it is not needed to
    /// bound the parse and has no effect on the result.
    ///
    /// Fails with `InvalidType` where the first four bytes are not the bytes of
    /// `expected_type`, with `UnsupportedVersion` where the version is above
    /// `max_version`, and with `Truncated` where the buffer ends before the
    /// header or one of the declared sections does.
    #[allow(unused_variables)]
    pub fn new(file_data: &[u8], file_size: usize, expected_type: &str, max_version: u32) -> (r:
        Result<BinFile, BinFileError>)
        ensures
            match r {
                Ok(c) => {
                    &&& parse(file_data@, expected_type.spec_bytes(), max_version) is Ok
                    &&& c@ == BinFileView::opened(file_data@)
                    &&& c@.wf()
                },
                Err(e) => {
                    &&& parse(file_data@, expected_type.spec_bytes(), max_version) == Err::<
                        Seq<Record>,
                        ErrorKind,
                    >(e.kind())
                    &&& e matches BinFileError::InvalidType(d) ==> d.expected@ == expected_type@
                        && d.found@ == tag_of(file_data@)
                    &&& e matches BinFileError::UnsupportedVersion(d) ==> d == (InvalidVersion {
                        max_version,
                        found_version: version_of(file_data@),
                    })
                },
            },
    {
        let ghost bytes = file_data@;
        let ghost expected = expected_type.spec_bytes();
        let len: usize = file_data.len();
        if len < TAG_LEN {
            return Err(BinFileError::Truncated);
        }
        let tag = slice_subrange(file_data, 0, TAG_LEN);
        if !bytes_equal(tag, expected_type.as_bytes()) {
            return Err(
                BinFileError::InvalidType(
                    InvalidFileType { expected: expected_type.to_owned(), found: slice_to_vec(tag) },
                ),
            );
        }
        if len < 8 {
            return Err(BinFileError::Truncated);
        }
        let mut pos: usize = TAG_LEN;
        let version: u32 = Self::read_u32_le(file_data, &mut pos);
        if version > max_version {
            return Err(
                BinFileError::UnsupportedVersion(
                    InvalidVersion { max_version, found_version: version },
                ),
            );
        }
        if len < HEADER_LEN {
            return Err(BinFileError::Truncated);
        }
        let n_sections: u32 = Self::read_u32_le(file_data, &mut pos);
        let mut sections: HashMap<u32, Vec<Section>> = HashMap::new();
        let mut i: u32 = 0;
        let ghost mut done: Seq<Record> = Seq::empty();
        proof {
            let all = parse_records(bytes, HEADER_LEN as int, n_sections as nat);
            assert(all matches Some(rest) ==> done + rest =~= rest);
        }
        while i < n_sections
            invariant
                bytes == file_data@,
                expected == expected_type.spec_bytes(),
                len == bytes.len(),
                HEADER_LEN <= pos <= len,
                i <= n_sections,
                parse(bytes, expected, max_version) == (match parse_records(
                    bytes,
                    HEADER_LEN as int,
                    n_sections as nat,
                ) {
                    Some(records) => Ok::<Seq<Record>, ErrorKind>(records),
                    None => Err(ErrorKind::Truncated),
                }),
                parse_records(bytes, HEADER_LEN as int, n_sections as nat) == (match parse_records(
                    bytes,
                    pos as int,
                    (n_sections - i) as nat,
                ) {
                    Some(rest) => Some(done + rest),
                    None => None,
                }),
                forall|t: u32| sections@.contains_key(t) <==> sections_of(done, t).len() > 0,
                forall|t: u32| sections@.contains_key(t) ==> sections@[t]@ == sections_of(done, t),
                forall|t: u32, j: int|
                    0 <= j < sections_of(done, t).len() ==> (#[trigger] sections_of(
                        done,
                        t,
                    )[j]).end() <= len,
            decreases n_sections - i,
        {
            if len - pos < RECORD_HEADER_LEN {
                return Err(BinFileError::Truncated);
            }
            let ghost at = pos as int;
            let s_type: u32 = Self::read_u32_le(file_data, &mut pos);
            let s_size: u64 = Self::read_u64_le(file_data, &mut pos);
            if s_size > (len - pos) as u64 {
                return Err(BinFileError::Truncated);
            }
            let section = Section { offset: pos, size: s_size };
            Self::add_section(&mut sections, s_type, section);
            proof {
                let record = Record { section_type: s_type, section };
                let next = parse_records(bytes, pos + s_size, (n_sections - i - 1) as nat);
                assert(parse_records(bytes, at, (n_sections - i) as nat) == (match next {
                    Some(rest) => Some(seq![record] + rest),
                    None => None,
                }));
                assert(next matches Some(rest) ==> done + (seq![record] + rest) =~= done.push(
                    record,
                ) + rest);
                assert(done.push(record).drop_last() =~= done);
                assert forall|t: u32| #[trigger]
                    sections_of(done.push(record), t) == (if t == s_type {
                        sections_of(done, t).push(section)
                    } else {
                        sections_of(done, t)
                    }) by {}
                assert(sections_of(done, s_type).len() == 0 ==> sections_of(done, s_type).push(
                    section,
                ) =~= seq![section]);
                done = done.push(record);
            }
            pos = pos + s_size as usize;
            i = i + 1;
        }
        proof {
            assert(done + Seq::<Record>::empty() =~= done);
            assert(index_view(sections@) =~= section_index(done));
        }
        Ok(
            BinFile {
                buffer: slice_to_vec(file_data),
                type_tag: slice_to_vec(tag),
                version,
                sections,
                cursor: 0,
                active_session: None,
            },
        )
    }

    /// The `section_pos`-th section of type `section_id`.
    fn find_section(&self, section_id: u32, section_pos: u32) -> (r: Result<Section, BinFileError>)
        ensures
            match r {
                Ok(s) => self@.lookup(section_id, section_pos) == Ok::<Section, ErrorKind>(s),
                Err(e) => {
                    &&& self@.lookup(section_id, section_pos) == Err::<Section, ErrorKind>(e.kind())
                    &&& e matches BinFileError::IndexOutOfRange(d) ==> d.index == section_pos
                        && d.count == self@.sections[section_id].len()
                },
            },
    {
        broadcast use vstd::std_specs::hash::group_hash_axioms;

        match self.sections.get(&section_id) {
            None => Err(BinFileError::SectionNotFound),
            Some(list) => {
                if section_pos as usize >= list.len() {
                    Err(BinFileError::IndexOutOfRange(RangeError::new(section_pos, list.len())))
                } else {
                    Ok(list[section_pos as usize])
                }
            },
        }
    }

    /// The payload of the `section_pos`-th section of type `section_id`, as a
    /// slice of the container's own buffer.
    ///
    /// Fails with `SectionNotFound` where no section of that type exists, and
    /// with `IndexOutOfRange` where the type has `section_pos` sections or fewer.
    /// Neither the cursor nor an open sequential read is touched.
    pub fn get_section_data(&self, section_id: u32, section_pos: u32) -> (r: Result<
        &[u8],
        BinFileError,
    >)
        ensures
            match r {
                Ok(data) => self@.lookup(section_id, section_pos) matches Ok(s) && data@
                    == s.payload(self@.buffer),
                Err(e) => {
                    &&& self@.lookup(section_id, section_pos) == Err::<Section, ErrorKind>(e.kind())
                    &&& e matches BinFileError::IndexOutOfRange(d) ==> d.index == section_pos
                        && d.count == self@.sections[section_id].len()
                },
            },
    {
        proof {
            use_type_invariant(self);
        }
        match self.find_section(section_id, section_pos) {
            Ok(s) => Ok(slice_subrange(self.buffer.as_slice(), s.offset, s.offset + s.size as usize)),
            Err(e) => Err(e),
        }
    }

    /// The declared size of the `section_pos`-th section of type `section_id`.
    ///
    /// Fails as [`BinFile::get_section_data`] does.
    pub fn get_section_size(&self, section_id: u32, section_pos: u32) -> (r: Result<
        u64,
        BinFileError,
    >)
        ensures
            match r {
                Ok(size) => self@.lookup(section_id, section_pos) matches Ok(s) && size == s.size,
                Err(e) => {
                    &&& self@.lookup(section_id, section_pos) == Err::<Section, ErrorKind>(e.kind())
                    &&& e matches BinFileError::IndexOutOfRange(d) ==> d.index == section_pos
                        && d.count == self@.sections[section_id].len()
                },
            },
    {
        match self.find_section(section_id, section_pos) {
            Ok(s) => Ok(s.size),
            Err(e) => Err(e),
        }
    }

    /// Opens a sequential read of the `section_pos`-th section of type
    /// `section_id` and moves the cursor to the start of its payload.
    ///
    /// Fails with `AlreadyReading` while a sequential read is open, whatever
    /// the arguments; otherwise as [`BinFile::get_section_data`] does. A failed
    /// call changes nothing.
    pub fn start_read_section(&mut self, section_id: u32, section_pos: u32) -> (r: Result<
        (),
        BinFileError,
    >)
        ensures
            final(self)@.wf(),
            match r {
                Ok(()) => old(self)@.start(section_id, section_pos) == Ok::<
                    BinFileView,
                    ErrorKind,
                >(final(self)@),
                Err(e) => {
                    &&& old(self)@.start(section_id, section_pos) == Err::<BinFileView, ErrorKind>(
                        e.kind(),
                    )
                    &&& final(self)@ == old(self)@
                    &&& e matches BinFileError::IndexOutOfRange(d) ==> d.index == section_pos
                        && d.count == old(self)@.sections[section_id].len()
                },
            },
    {
        proof {
            use_type_invariant(&*self);
        }
        if self.active_session.is_some() {
            return Err(BinFileError::AlreadyReading);
        }
        match self.find_section(section_id, section_pos) {
            Ok(s) => {
                self.cursor = s.offset;
                self.active_session = Some(s);
                Ok(())
            },
            Err(e) => Err(e),
        }
    }

    /// Closes the open sequential read. Where `check` is set, the bytes
    /// consumed since it was opened must be exactly the declared size.
    ///
    /// Fails with `NoActiveSection` while no sequential read is open, and with
    /// `SectionSizeMismatch` where `check` is set and the count differs. A
    /// failed call changes nothing: after a mismatch the read is still open.
    pub fn end_read_section(&mut self, check: bool) -> (r: Result<(), BinFileError>)
        ensures
            final(self)@.wf(),
            match r {
                Ok(()) => old(self)@.end(check) == Ok::<BinFileView, ErrorKind>(final(self)@),
                Err(e) => old(self)@.end(check) == Err::<BinFileView, ErrorKind>(e.kind())
                    && final(self)@ == old(self)@,
            },
    {
        proof {
            use_type_invariant(&*self);
        }
        match self.active_session {
            None => Err(BinFileError::NoActiveSection),
            Some(s) => {
                if check && (self.cursor - s.offset) as u64 != s.size {
                    return Err(BinFileError::SectionSizeMismatch);
                }
                self.active_session = None;
                Ok(())
            },
        }
    }

    /// Hands out the `len` bytes at the cursor and moves the cursor past them.
    /// Reads are not tied to an open sequential read, and may cross the end of
    /// a section.
    ///
    /// Fails with `OutOfBounds` where fewer than `len` bytes lie between the
    /// cursor and the end of the buffer. A failed call changes nothing.
    pub fn read(&mut self, len: u64) -> (r: Result<&[u8], BinFileError>)
        ensures
            final(self)@.wf(),
            match r {
                Ok(data) => old(self)@.read(len) == Ok::<BinFileView, ErrorKind>(final(self)@)
                    && data@ == old(self)@.window(len),
                Err(e) => old(self)@.read(len) == Err::<BinFileView, ErrorKind>(e.kind())
                    && final(self)@ == old(self)@,
            },
    {
        proof {
            use_type_invariant(&*self);
        }
        let start: usize = self.cursor;
        if len > (self.buffer.len() - start) as u64 {
            return Err(BinFileError::OutOfBounds);
        }
        self.cursor = start + len as usize;
        Ok(slice_subrange(self.buffer.as_slice(), start, start + len as usize))
    }

    /// The four tag bytes at the head of the buffer.
    pub fn file_type(&self) -> (tag: &[u8])
        ensures
            tag@ == self@.type_tag,
    {
        self.type_tag.as_slice()
    }

    /// The version in the header.
    pub fn version(&self) -> (version: u32)
        ensures
            version == self@.version,
    {
        self.version
    }

    /// Where the next sequential read starts.
    pub fn position(&self) -> (cursor: usize)
        ensures
            cursor == self@.cursor,
    {
        self.cursor
    }

    /// The section of the open sequential read, or `None` while idle.
    pub fn reading_section(&self) -> (active: Option<Section>)
        ensures
            active == self@.active_session,
    {
        self.active_session
    }

    /// Files `section` under `section_type`, behind the sections of that type
    /// that are already there.
    fn add_section(index: &mut HashMap<u32, Vec<Section>>, section_type: u32, section: Section)
        ensures
            final(index)@.contains_key(section_type),
            final(index)@[section_type]@ == (if old(index)@.contains_key(section_type) {
                old(index)@[section_type]@.push(section)
            } else {
                seq![section]
            }),
            forall|t: u32|
                t != section_type ==> (final(index)@.contains_key(t) <==> old(index)@.contains_key(
                    t,
                )),
            forall|t: u32|
                t != section_type && old(index)@.contains_key(t) ==> final(index)@[t] == old(
                    index,
                )@[t],
    {
        broadcast use vstd::std_specs::hash::group_hash_axioms;

        index.entry(section_type).or_insert(Vec::new()).push(section);
    }

    /// Decodes the four bytes at `*pos` and steps `*pos` past them.
    fn read_u32_le(data: &[u8], pos: &mut usize) -> (value: u32)
        requires
            *old(pos) + 4 <= data@.len(),
        ensures
            value == le_u32(data@, *old(pos) as int),
            *final(pos) == *old(pos) + 4,
    {
        let at: usize = *pos;
        let b0: u32 = data[at] as u32;
        let b1: u32 = data[at + 1] as u32;
        let b2: u32 = data[at + 2] as u32;
        let b3: u32 = data[at + 3] as u32;
        *pos = at + 4;
        b0 + 0x100 * b1 + 0x1_0000 * b2 + 0x100_0000 * b3
    }

    /// Decodes the eight bytes at `*pos` and steps `*pos` past them.
    fn read_u64_le(data: &[u8], pos: &mut usize) -> (value: u64)
        requires
            *old(pos) + 8 <= data@.len(),
        ensures
            value == le_u64(data@, *old(pos) as int),
            *final(pos) == *old(pos) + 8,
    {
        let low: u32 = Self::read_u32_le(data, pos);
        let high: u32 = Self::read_u32_le(data, pos);
        low as u64 + 0x1_0000_0000 * (high as u64)
    }
}

} // verus!
