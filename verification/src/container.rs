//! The sectioned binary container shared by `.r1cs`, `.ptau` and `.zkey`
//! files: `magic[4] version:u32 n_sections:u32 (id:u32 size:u64 payload)*`,
//! all integers little-endian.
//!
//! The reader parses a byte image into a section table; the writer builds a
//! byte image section by section, patching each declared size when the
//! section is closed.  `read_bin_file_spec` is the reader's full functional
//! specification, and `lemma_container_round_trip` states that reading back
//! a written container returns every section, in order, unchanged.

use vstd::assert_seqs_equal;
use vstd::prelude::*;

use crate::bytes_le::{
    le_val, lemma_u32_le_bytes_val, lemma_u64_le_bytes_val, push_u32_le, push_u64_le, read_u32_at,
    read_u64_at, u32_le_bytes, u64_le_bytes,
};
use crate::errors::SetupError;

verus! {

/// Where one section's payload lies in the file.
#[derive(Clone, Copy, Debug, PartialEq, Eq, Structural)]
pub struct Section {
    pub offset: u64,
    pub size: u64,
}

/// The section table of a parsed container: `(id, section)` pairs in file
/// order; the same id may occur several times.
#[derive(Debug)]
pub struct SectionTable {
    pub entries: Vec<(u32, Section)>,
}

/// Parses `n` section descriptors starting at `pos`, skipping payloads.
pub open spec fn parse_sections(data: Seq<u8>, pos: int, n: nat) -> Option<Seq<(u32, Section)>>
    decreases n,
{
    if n == 0 {
        Some(Seq::empty())
    } else if pos + 12 > data.len() {
        None
    } else {
        let id = le_val(data.subrange(pos, pos + 4));
        let size = le_val(data.subrange(pos + 4, pos + 12));
        let off = pos + 12;
        if off + size > data.len() {
            None
        } else {
            match parse_sections(data, off + size, (n - 1) as nat) {
                None => None,
                Some(rest) => Some(
                    seq![(id as u32, Section { offset: off as u64, size: size as u64 })] + rest,
                ),
            }
        }
    }
}

/// The reader's functional specification: magic, then version against the
/// maximum, then the section scan; errors in exactly that order.
pub open spec fn read_bin_file_spec(data: Seq<u8>, magic: Seq<u8>, max_version: u32) -> Result<
    Seq<(u32, Section)>,
    SetupError,
> {
    if data.len() < 4 {
        Err(SetupError::Truncated)
    } else if data.subrange(0, 4) != magic {
        Err(SetupError::BadMagic)
    } else if data.len() < 8 {
        Err(SetupError::Truncated)
    } else if le_val(data.subrange(4, 8)) > max_version {
        Err(SetupError::UnsupportedVersion)
    } else if data.len() < 12 {
        Err(SetupError::Truncated)
    } else {
        match parse_sections(data, 12, le_val(data.subrange(8, 12))) {
            None => Err(SetupError::Truncated),
            Some(t) => Ok(t),
        }
    }
}

impl SectionTable {
    /// The first section with this id, in file order, if any.
    pub open spec fn first_spec(entries: Seq<(u32, Section)>, id: u32) -> Option<Section>
        decreases entries.len(),
    {
        if entries.len() == 0 {
            None
        } else if entries[0].0 == id {
            Some(entries[0].1)
        } else {
            Self::first_spec(entries.skip(1), id)
        }
    }

    /// How many sections carry this id.
    pub open spec fn count_spec(entries: Seq<(u32, Section)>, id: u32) -> nat
        decreases entries.len(),
    {
        if entries.len() == 0 {
            0
        } else {
            (if entries[0].0 == id {
                1nat
            } else {
                0nat
            }) + Self::count_spec(entries.skip(1), id)
        }
    }

    /// The first section with this id, in file order.
    pub fn first(&self, id: u32) -> (r: Option<Section>)
        ensures
            r == Self::first_spec(self.entries@, id),
    {
        let n = self.entries.len();
        let mut i: usize = 0;
        proof {
            assert(self.entries@.skip(0) =~= self.entries@);
        }
        while i < n
            invariant
                i <= n,
                n == self.entries@.len(),
                Self::first_spec(self.entries@, id) == Self::first_spec(
                    self.entries@.skip(i as int),
                    id,
                ),
            decreases n - i,
        {
            proof {
                assert(self.entries@.skip(i as int)[0] == self.entries@[i as int]);
                assert(self.entries@.skip(i as int).skip(1) =~= self.entries@.skip(i + 1));
            }
            if self.entries[i].0 == id {
                return Some(self.entries[i].1);
            }
            i = i + 1;
        }
        proof {
            assert(self.entries@.skip(n as int) =~= Seq::<(u32, Section)>::empty());
        }
        None
    }

    /// How many sections carry this id.
    pub fn count(&self, id: u32) -> (r: usize)
        ensures
            r == Self::count_spec(self.entries@, id),
    {
        let n = self.entries.len();
        let mut i: usize = 0;
        let mut c: usize = 0;
        proof {
            assert(self.entries@.skip(0) =~= self.entries@);
        }
        while i < n
            invariant
                i <= n,
                c <= i,
                n == self.entries@.len(),
                Self::count_spec(self.entries@, id) == c + Self::count_spec(
                    self.entries@.skip(i as int),
                    id,
                ),
            decreases n - i,
        {
            proof {
                assert(self.entries@.skip(i as int)[0] == self.entries@[i as int]);
                assert(self.entries@.skip(i as int).skip(1) =~= self.entries@.skip(i + 1));
            }
            if self.entries[i].0 == id {
                c = c + 1;
            }
            i = i + 1;
        }
        proof {
            assert(self.entries@.skip(n as int) =~= Seq::<(u32, Section)>::empty());
        }
        c
    }

    /// Whether any section carries this id.
    pub fn contains_id(&self, id: u32) -> (r: bool)
        ensures
            r <==> Self::first_spec(self.entries@, id) is Some,
    {
        let f = self.first(id);
        f.is_some()
    }
}

/// Reads the container header and scans the section descriptors of an
/// in-memory file image, without touching payloads.
pub fn read_bin_file(data: &Vec<u8>, magic: &Vec<u8>, max_version: u32) -> (r: Result<
    SectionTable,
    SetupError,
>)
    requires
        magic@.len() == 4,
    ensures
        match r {
            Ok(t) => read_bin_file_spec(data@, magic@, max_version) == Ok::<
                Seq<(u32, Section)>,
                SetupError,
            >(t.entries@),
            Err(e) => read_bin_file_spec(data@, magic@, max_version) == Err::<
                Seq<(u32, Section)>,
                SetupError,
            >(e),
        },
        r matches Ok(t) ==> forall|i: int|
            0 <= i < t.entries@.len() ==> (#[trigger] t.entries@[i]).1.offset
                + t.entries@[i].1.size <= data@.len() && t.entries@[i].1.offset >= 12,
{
    let n = data.len();
    if n < 4 {
        return Err(SetupError::Truncated);
    }
    if data[0] != magic[0] || data[1] != magic[1] || data[2] != magic[2] || data[3] != magic[3] {
        proof {
            if data@.subrange(0, 4) == magic@ {
                assert(data@.subrange(0, 4)[0] == data@[0]);
                assert(data@.subrange(0, 4)[1] == data@[1]);
                assert(data@.subrange(0, 4)[2] == data@[2]);
                assert(data@.subrange(0, 4)[3] == data@[3]);
            }
        }
        return Err(SetupError::BadMagic);
    }
    proof {
        assert(data@.subrange(0, 4) =~= magic@);
    }
    if n < 8 {
        return Err(SetupError::Truncated);
    }
    let version = read_u32_at(data, 4);
    if version > max_version {
        return Err(SetupError::UnsupportedVersion);
    }
    if n < 12 {
        return Err(SetupError::Truncated);
    }
    let n_sections = read_u32_at(data, 8);
    let ghost total = n_sections as nat;
    let mut entries: Vec<(u32, Section)> = Vec::new();
    let mut pos: usize = 12;
    let mut done: u32 = 0;
    proof {
        assert(entries@ =~= Seq::<(u32, Section)>::empty());
    }
    while done < n_sections
        invariant
            done <= n_sections,
            12 <= pos <= n,
            n == data@.len(),
            total == n_sections as nat,
            magic@.len() == 4,
            data@.subrange(0, 4) == magic@,
            le_val(data@.subrange(4, 8)) <= max_version,
            le_val(data@.subrange(8, 12)) == total,
            parse_sections(data@, 12, total) is Some <==> parse_sections(
                data@,
                pos as int,
                (n_sections - done) as nat,
            ) is Some,
            parse_sections(data@, 12, total) is Some ==> parse_sections(
                data@,
                12,
                total,
            ).unwrap() == entries@ + parse_sections(
                data@,
                pos as int,
                (n_sections - done) as nat,
            ).unwrap(),
            forall|i: int|
                0 <= i < entries@.len() ==> (#[trigger] entries@[i]).1.offset
                    + entries@[i].1.size <= n && entries@[i].1.offset >= 12,
        decreases n_sections - done,
    {
        let ghost rem = (n_sections - done) as nat;
        let ghost pos0 = pos as int;
        if pos > n - 12 || n < 12 {
            proof {
                assert(parse_sections(data@, pos0, rem) is None);
                assert(parse_sections(data@, 12, total) is None);
                assert(read_bin_file_spec(data@, magic@, max_version) == Err::<
                    Seq<(u32, Section)>,
                    SetupError,
                >(SetupError::Truncated));
            }
            return Err(SetupError::Truncated);
        }
        let id = read_u32_at(data, pos);
        let size = read_u64_at(data, pos + 4);
        let off = pos + 12;
        if size > (n - off) as u64 {
            proof {
                assert(parse_sections(data@, pos0, rem) is None);
                assert(parse_sections(data@, 12, total) is None);
                assert(read_bin_file_spec(data@, magic@, max_version) == Err::<
                    Seq<(u32, Section)>,
                    SetupError,
                >(SetupError::Truncated));
            }
            return Err(SetupError::Truncated);
        }
        let ghost entries0 = entries@;
        entries.push((id, Section { offset: off as u64, size: size }));
        pos = off + size as usize;
        done = done + 1;
        proof {
            let rest = parse_sections(data@, pos0, rem);
            let head = (id, Section { offset: off as u64, size: size });
            assert(rest is Some ==> rest.unwrap() == seq![head] + parse_sections(
                data@,
                pos as int,
                (rem - 1) as nat,
            ).unwrap());
            assert(rest is Some <==> parse_sections(data@, pos as int, (rem - 1) as nat) is Some);
            assert(entries@ =~= entries0.push(head));
            if parse_sections(data@, 12, total) is Some {
                let t = parse_sections(data@, 12, total).unwrap();
                let tail = parse_sections(data@, pos as int, (rem - 1) as nat).unwrap();
                assert(t == entries0 + rest.unwrap());
                assert(t =~= entries0 + (seq![head] + tail));
                assert(t =~= entries@ + tail);
            }
        }
    }
    proof {
        assert(parse_sections(data@, pos as int, 0) == Some(Seq::<(u32, Section)>::empty()));
        if parse_sections(data@, 12, total) is Some {
            let t = parse_sections(data@, 12, total).unwrap();
            assert(t =~= entries@);
        }
    }
    Ok(SectionTable { entries })
}

/// One serialized section: id, declared size, payload.
pub open spec fn section_bytes(id: u32, payload: Seq<u8>) -> Seq<u8> {
    u32_le_bytes(id) + u64_le_bytes(payload.len() as u64) + payload
}

/// The serialized section list, in order.
pub open spec fn serialize_sections(secs: Seq<(u32, Seq<u8>)>) -> Seq<u8>
    decreases secs.len(),
{
    if secs.len() == 0 {
        Seq::empty()
    } else {
        section_bytes(secs[0].0, secs[0].1) + serialize_sections(secs.skip(1))
    }
}

/// A whole container image.
pub open spec fn serialize_container(magic: Seq<u8>, version: u32, secs: Seq<(u32, Seq<u8>)>)
    -> Seq<u8> {
    magic + u32_le_bytes(version) + u32_le_bytes(secs.len() as u32) + serialize_sections(secs)
}

/// Serialization appends section by section.
pub proof fn lemma_serialize_push(secs: Seq<(u32, Seq<u8>)>, id: u32, payload: Seq<u8>)
    ensures
        serialize_sections(secs.push((id, payload))) == serialize_sections(secs) + section_bytes(
            id,
            payload,
        ),
    decreases secs.len(),
{
    reveal_with_fuel(serialize_sections, 3);
    let p = secs.push((id, payload));
    if secs.len() == 0 {
        assert(p[0] == (id, payload));
        assert(p.skip(1) =~= Seq::<(u32, Seq<u8>)>::empty());
        assert(serialize_sections(p) =~= section_bytes(id, payload));
        assert(serialize_sections(secs) + section_bytes(id, payload) =~= section_bytes(
            id,
            payload,
        ));
    } else {
        assert(p.skip(1) =~= secs.skip(1).push((id, payload)));
        lemma_serialize_push(secs.skip(1), id, payload);
        assert(p[0] == secs[0]);
        assert(serialize_sections(p) =~= serialize_sections(secs) + section_bytes(id, payload));
    }
}

/// An in-memory container writer: header first, then sections opened with
/// `start_write_section`, filled with the `write_*` methods and closed with
/// `end_write_section`, which patches the declared size.
pub struct BinFile {
    pub buf: Vec<u8>,
    pub n_sections: u32,
    pub written: u32,
    pub in_section: bool,
    pub section_start: usize,
}

impl BinFile {
    /// A section is open exactly when `in_section`, and its payload starts
    /// at `section_start`, after the 12 header bytes and the 12 bytes of
    /// its own descriptor.
    pub open spec fn wf(self) -> bool {
        self.in_section ==> 24 <= self.section_start <= self.buf@.len()
    }

    /// Writes the container header: magic, version, declared section count.
    pub fn create(magic: &Vec<u8>, version: u32, n_sections: u32) -> (w: Self)
        requires
            magic@.len() == 4,
        ensures
            w.buf@ == magic@ + u32_le_bytes(version) + u32_le_bytes(n_sections),
            w.n_sections == n_sections,
            w.written == 0,
            !w.in_section,
            w.wf(),
    {
        let mut buf = crate::lowering::copy_bytes(magic);
        push_u32_le(&mut buf, version);
        push_u32_le(&mut buf, n_sections);
        proof {
            assert(buf@ =~= magic@ + u32_le_bytes(version) + u32_le_bytes(n_sections));
        }
        BinFile { buf, n_sections, written: 0, in_section: false, section_start: 0 }
    }

    /// Opens a section: writes its id and reserves the 8 size bytes.
    pub fn start_write_section(&mut self, id: u32)
        requires
            old(self).wf(),
            !old(self).in_section,
            old(self).buf@.len() >= 12,
        ensures
            final(self).wf(),
            final(self).in_section,
            final(self).buf@ == old(self).buf@ + u32_le_bytes(id) + u64_le_bytes(0),
            final(self).section_start == old(self).buf@.len() + 12,
            final(self).n_sections == old(self).n_sections,
            final(self).written == old(self).written,
    {
        push_u32_le(&mut self.buf, id);
        push_u64_le(&mut self.buf, 0);
        let start = self.buf.len();
        self.in_section = true;
        self.section_start = start;
        proof {
            assert(self.buf@ =~= old(self).buf@ + u32_le_bytes(id) + u64_le_bytes(0));
        }
    }

    /// Appends bytes to the open section.
    pub fn write_bytes(&mut self, data: &Vec<u8>)
        requires
            old(self).wf(),
            old(self).in_section,
        ensures
            final(self).wf(),
            final(self).buf@ == old(self).buf@ + data@,
            final(self).in_section == old(self).in_section,
            final(self).section_start == old(self).section_start,
            final(self).n_sections == old(self).n_sections,
            final(self).written == old(self).written,
    {
        let n = data.len();
        let mut i: usize = 0;
        while i < n
            invariant
                i <= n,
                n == data@.len(),
                self.buf@ == old(self).buf@ + data@.subrange(0, i as int),
                self.in_section == old(self).in_section,
                self.section_start == old(self).section_start,
                self.n_sections == old(self).n_sections,
                self.written == old(self).written,
            decreases n - i,
        {
            let ghost pre = self.buf@;
            self.buf.push(data[i]);
            proof {
                assert(self.buf@ =~= old(self).buf@ + data@.subrange(0, i + 1));
            }
            i = i + 1;
        }
        proof {
            assert(data@.subrange(0, n as int) =~= data@);
        }
    }

    /// Appends a little-endian `u32` to the open section.
    pub fn write_u32(&mut self, val: u32)
        requires
            old(self).wf(),
            old(self).in_section,
        ensures
            final(self).wf(),
            final(self).buf@ == old(self).buf@ + u32_le_bytes(val),
            final(self).in_section == old(self).in_section,
            final(self).section_start == old(self).section_start,
            final(self).n_sections == old(self).n_sections,
            final(self).written == old(self).written,
    {
        push_u32_le(&mut self.buf, val);
    }

    /// Appends a little-endian `u64` to the open section.
    pub fn write_u64(&mut self, val: u64)
        requires
            old(self).wf(),
            old(self).in_section,
        ensures
            final(self).wf(),
            final(self).buf@ == old(self).buf@ + u64_le_bytes(val),
            final(self).in_section == old(self).in_section,
            final(self).section_start == old(self).section_start,
            final(self).n_sections == old(self).n_sections,
            final(self).written == old(self).written,
    {
        push_u64_le(&mut self.buf, val);
    }

    /// Closes the open section: patches the reserved size field with the
    /// number of payload bytes written since `start_write_section`.
    pub fn end_write_section(&mut self)
        requires
            old(self).wf(),
            old(self).in_section,
            old(self).written < old(self).n_sections,
        ensures
            final(self).wf(),
            !final(self).in_section,
            final(self).written == old(self).written + 1,
            final(self).n_sections == old(self).n_sections,
            final(self).buf@ == old(self).buf@.subrange(
                0,
                old(self).section_start - 8,
            ) + u64_le_bytes(
                (old(self).buf@.len() - old(self).section_start) as u64,
            ) + old(self).buf@.subrange(old(self).section_start as int, old(self).buf@.len() as int),
    {
        let start = self.section_start;
        let size = (self.buf.len() - start) as u64;
        let mut size_bytes: Vec<u8> = Vec::new();
        push_u64_le(&mut size_bytes, size);
        let mut i: usize = 0;
        while i < 8
            invariant
                i <= 8,
                start == old(self).section_start,
                24 <= start <= old(self).buf@.len(),
                size_bytes@ == u64_le_bytes((old(self).buf@.len() - start) as u64),
                self.buf@.len() == old(self).buf@.len(),
                self.in_section && self.written == old(self).written && self.n_sections == old(
                    self,
                ).n_sections,
                self.section_start == old(self).section_start,
                forall|j: int|
                    0 <= j < self.buf@.len() ==> #[trigger] self.buf@[j] == if start - 8 <= j
                        < start - 8 + i {
                        size_bytes@[j - (start - 8)]
                    } else {
                        old(self).buf@[j]
                    },
            decreases 8 - i,
        {
            self.buf.set(start - 8 + i, size_bytes[i]);
            i = i + 1;
        }
        self.in_section = false;
        self.written = self.written + 1;
        proof {
            assert(self.buf@ =~= old(self).buf@.subrange(0, start - 8) + u64_le_bytes(
                (old(self).buf@.len() - start) as u64,
            ) + old(self).buf@.subrange(start as int, old(self).buf@.len() as int));
        }
    }
}

impl BinFile {
    /// Closes the container: a well-formed file has exactly as many written
    /// sections as it declared, and no section still open.
    pub fn finish(self) -> (r: Vec<u8>)
        requires
            self.wf(),
            !self.in_section,
            self.written == self.n_sections,
        ensures
            r@ == self.buf@,
    {
        self.buf
    }
}

/// The section list of exec pairs as mathematical pairs.
pub open spec fn secs_model(v: Seq<(u32, Vec<u8>)>) -> Seq<(u32, Seq<u8>)> {
    v.map(|i: int, s: (u32, Vec<u8>)| (s.0, s.1@))
}

/// Serializes a whole container in one call, one section per entry.
pub fn write_container(magic: &Vec<u8>, version: u32, sections: &Vec<(u32, Vec<u8>)>) -> (r: Vec<
    u8,
>)
    requires
        magic@.len() == 4,
        sections@.len() <= u32::MAX,
    ensures
        r@ == serialize_container(magic@, version, secs_model(sections@)),
{
    let n = sections.len();
    let mut w = BinFile::create(magic, version, n as u32);
    let ghost header = magic@ + u32_le_bytes(version) + u32_le_bytes(n as u32);
    let mut i: usize = 0;
    proof {
        assert(secs_model(sections@.take(0)) =~= Seq::<(u32, Seq<u8>)>::empty());
        assert(serialize_sections(secs_model(sections@.take(0))) =~= Seq::<u8>::empty());
        assert(w.buf@ =~= header + serialize_sections(secs_model(sections@.take(0))));
    }
    while i < n
        invariant
            i <= n,
            n == sections@.len(),
            n <= u32::MAX,
            w.wf(),
            !w.in_section,
            w.written == i,
            w.n_sections == n as u32,
            header == magic@ + u32_le_bytes(version) + u32_le_bytes(n as u32),
            header.len() == 12,
            w.buf@ == header + serialize_sections(secs_model(sections@.take(i as int))),
        decreases n - i,
    {
        let ghost pre = w.buf@;
        let id = sections[i].0;
        w.start_write_section(id);
        w.write_bytes(&sections[i].1);
        let ghost payload = sections@[i as int].1@;
        let ghost mid = w.buf@;
        proof {
            assert(mid == pre + u32_le_bytes(id) + u64_le_bytes(0) + payload);
            assert(w.section_start == pre.len() + 12);
        }
        w.end_write_section();
        proof {
            lemma_u64_le_bytes_val(0);
            assert(mid.subrange(0, pre.len() as int + 4) =~= pre + u32_le_bytes(id));
            assert(mid.subrange(pre.len() as int + 12, mid.len() as int) =~= payload);
            assert(w.buf@ =~= pre + section_bytes(id, payload));
            lemma_serialize_push(secs_model(sections@.take(i as int)), id, payload);
            assert(secs_model(sections@.take(i + 1)) =~= secs_model(
                sections@.take(i as int),
            ).push((id, payload)));
            assert(w.buf@ =~= header + serialize_sections(secs_model(sections@.take(i + 1))));
        }
        i = i + 1;
    }
    proof {
        assert(sections@.take(n as int) =~= sections@);
        assert(w.buf@ =~= serialize_container(magic@, version, secs_model(sections@)));
    }
    w.buf
}

/// Reads a slice of the first section with the given id, defaulting to the
/// whole section; fails `NoSuchSection` when the id is absent and
/// `OutOfBounds` when the requested range exceeds the section.
pub fn read_section(
    data: &Vec<u8>,
    sections: &SectionTable,
    section_id: u32,
    offset: Option<u64>,
    length: Option<u64>,
) -> (r: Result<Vec<u8>, SetupError>)
    requires
        forall|i: int|
            0 <= i < sections.entries@.len() ==> (#[trigger] sections.entries@[i]).1.offset
                + sections.entries@[i].1.size <= data@.len(),
    ensures
        match SectionTable::first_spec(sections.entries@, section_id) {
            None => r == Err::<Vec<u8>, SetupError>(SetupError::NoSuchSection),
            Some(sec) => {
                let off = if offset is Some {
                    offset.unwrap()
                } else {
                    0
                };
                let want = if length is Some {
                    length.unwrap() as int
                } else {
                    sec.size - off
                };
                if off + want > sec.size || off > sec.size || want < 0 {
                    r == Err::<Vec<u8>, SetupError>(SetupError::OutOfBounds)
                } else {
                    r matches Ok(b) && b@ == data@.subrange(
                        sec.offset + off,
                        sec.offset + off + want,
                    )
                }
            },
        },
{
    let dn = data.len();
    let found = sections.first(section_id);
    let sec = match found {
        None => {
            return Err(SetupError::NoSuchSection);
        },
        Some(s) => s,
    };
    let ghost entries = sections.entries@;
    proof {
        lemma_first_spec_in(entries, section_id);
        let idx = choose|idx: int|
            0 <= idx < entries.len() && (#[trigger] entries[idx]).1 == sec && entries[idx].0
                == section_id;
        assert(sec.offset + sec.size <= data@.len());
        assert(data@.len() == dn);
        assert(sec.offset + sec.size <= dn);
    }
    let off: u64 = match offset {
        None => 0,
        Some(o) => o,
    };
    if off > sec.size {
        return Err(SetupError::OutOfBounds);
    }
    let len: u64 = match length {
        None => sec.size - off,
        Some(l) => l,
    };
    if len > sec.size - off {
        return Err(SetupError::OutOfBounds);
    }
    let base = (sec.offset + off) as usize;
    let count = len as usize;
    let mut out: Vec<u8> = Vec::new();
    let mut i: usize = 0;
    while i < count
        invariant
            i <= count,
            base + count <= data@.len(),
            data@.len() <= usize::MAX,
            out@ == data@.subrange(base as int, base + i),
        decreases count - i,
    {
        let ghost pre = out@;
        assert(base + i < data@.len());
        out.push(data[base + i]);
        proof {
            assert(out@ =~= data@.subrange(base as int, base + i + 1));
        }
        i = i + 1;
    }
    Ok(out)
}

/// A section is found exactly when its id has a positive count.
pub proof fn lemma_first_count(entries: Seq<(u32, Section)>, id: u32)
    ensures
        SectionTable::first_spec(entries, id) is Some <==> SectionTable::count_spec(entries, id)
            > 0,
    decreases entries.len(),
{
    if entries.len() > 0 {
        lemma_first_count(entries.skip(1), id);
    }
}

/// A found section is one of the table's entries.
pub proof fn lemma_first_spec_in(entries: Seq<(u32, Section)>, id: u32)
    ensures
        SectionTable::first_spec(entries, id) matches Some(sec) ==> exists|i: int|
            0 <= i < entries.len() && (#[trigger] entries[i]).1 == sec && entries[i].0 == id,
    decreases entries.len(),
{
    if entries.len() > 0 && entries[0].0 != id {
        lemma_first_spec_in(entries.skip(1), id);
        if SectionTable::first_spec(entries, id) is Some {
            let sec = SectionTable::first_spec(entries, id).unwrap();
            let i0 = choose|i0: int|
                0 <= i0 < entries.skip(1).len() && (#[trigger] entries.skip(1)[i0]).1 == sec
                    && entries.skip(1)[i0].0 == id;
            assert(entries[i0 + 1] == entries.skip(1)[i0]);
        }
    }
}

/// Container round-trip: parsing a serialized section list returns every
/// id, size and payload, in order.
pub proof fn lemma_parse_of_serialized(data: Seq<u8>, pos: int, secs: Seq<(u32, Seq<u8>)>)
    requires
        0 <= pos,
        data.len() <= u64::MAX,
        data.len() == pos + serialize_sections(secs).len(),
        data.subrange(pos, data.len() as int) == serialize_sections(secs),
        forall|i: int| 0 <= i < secs.len() ==> (#[trigger] secs[i]).1.len() < 0x10000000000000000,
    ensures
        parse_sections(data, pos, secs.len()) is Some,
        parse_sections(data, pos, secs.len()).unwrap().len() == secs.len(),
        forall|i: int| #![trigger secs[i]]
            0 <= i < secs.len() ==> {
                let t = parse_sections(data, pos, secs.len()).unwrap();
                t[i].0 == secs[i].0 && t[i].1.size == secs[i].1.len()
                    && data.subrange(t[i].1.offset as int, t[i].1.offset + t[i].1.size)
                    == secs[i].1
            },
    decreases secs.len(),
{
    if secs.len() > 0 {
        let sb = serialize_sections(secs);
        let head = section_bytes(secs[0].0, secs[0].1);
        let plen = secs[0].1.len();
        assert(head.len() == 12 + plen);
        assert(data.len() >= pos + 12 + plen);
        assert forall|k: int| #![trigger data[pos + k]] 0 <= k < head.len() implies data[pos
            + k] == head[k] by {
            assert(data.subrange(pos, data.len() as int)[k] == data[pos + k]);
            assert(sb[k] == head[k]);
        }
        lemma_u32_le_bytes_val(secs[0].0);
        lemma_u64_le_bytes_val(plen as u64);
        let idb = u32_le_bytes(secs[0].0);
        let szb = u64_le_bytes(plen as u64);
        assert forall|k: int| 0 <= k < 12 + plen implies head[k] == if k < 4 {
            idb[k]
        } else if k < 12 {
            szb[k - 4]
        } else {
            secs[0].1[k - 12]
        } by {
            assert(head[k] == (idb + szb + secs[0].1)[k]);
            assert((idb + szb + secs[0].1)[k] == ((idb + szb) + secs[0].1)[k]);
            if k < 12 {
                assert(((idb + szb) + secs[0].1)[k] == (idb + szb)[k]);
            } else {
                assert(((idb + szb) + secs[0].1)[k] == secs[0].1[k - 12]);
            }
        }
        assert_seqs_equal!(data.subrange(pos, pos + 4) == u32_le_bytes(secs[0].0), k => {
            assert(data.subrange(pos, pos + 4)[k] == data[pos + k]);
            assert(data[pos + k] == head[k]);
        });
        assert_seqs_equal!(data.subrange(pos + 4, pos + 12) == u64_le_bytes(plen as u64), k => {
            assert(data.subrange(pos + 4, pos + 12)[k] == data[pos + (k + 4)]);
            assert(data[pos + (k + 4)] == head[k + 4]);
        });
        assert(le_val(data.subrange(pos, pos + 4)) == secs[0].0);
        assert(le_val(data.subrange(pos + 4, pos + 12)) == plen);
        let off = pos + 12;
        assert_seqs_equal!(data.subrange(off, off + plen) == secs[0].1, k => {
            assert(data.subrange(off, off + plen)[k] == data[pos + (k + 12)]);
            assert(data[pos + (k + 12)] == head[k + 12]);
        });
        let pos2 = off + plen;
        let tail = secs.skip(1);
        assert(serialize_sections(tail).len() == sb.len() - head.len());
        assert(data.len() == pos2 + serialize_sections(tail).len());
        assert(data.subrange(pos2, data.len() as int) =~= serialize_sections(tail)) by {
            assert forall|k: int|
                0 <= k < serialize_sections(tail).len() implies data.subrange(
                pos2,
                data.len() as int,
            )[k] == serialize_sections(tail)[k] by {
                assert(data.subrange(pos2, data.len() as int)[k] == data[pos2 + k]);
                assert(data[pos2 + k] == data.subrange(pos, data.len() as int)[pos2 + k - pos]);
                assert(sb[head.len() + k] == serialize_sections(tail)[k]);
            }
        }
        assert(forall|i: int|
            0 <= i < tail.len() ==> (#[trigger] tail[i]).1.len() < 0x10000000000000000) by {
            assert(forall|i: int| 0 <= i < tail.len() ==> tail[i] == secs[i + 1]);
        }
        lemma_parse_of_serialized(data, pos2, tail);
        let trest = parse_sections(data, pos2, tail.len()).unwrap();
        let t = parse_sections(data, pos, secs.len()).unwrap();
        assert(t == seq![
            (secs[0].0, Section { offset: off as u64, size: plen as u64 }),
        ] + trest);
        assert forall|i: int| #![trigger secs[i]]
            0 <= i < secs.len() implies {
            let tt = parse_sections(data, pos, secs.len()).unwrap();
            tt[i].0 == secs[i].0 && tt[i].1.size == secs[i].1.len() && data.subrange(
                tt[i].1.offset as int,
                tt[i].1.offset + tt[i].1.size,
            ) == secs[i].1
        } by {
            if i > 0 {
                assert(t[i] == trest[i - 1]);
                assert(tail[i - 1] == secs[i]);
            }
        }
    }
}

/// Container round-trip: writing a section list and reading the image back
/// yields the same ids and payloads, in the same order, with multiplicity
/// preserved.
pub proof fn lemma_container_round_trip(
    magic: Seq<u8>,
    version: u32,
    secs: Seq<(u32, Seq<u8>)>,
    max_version: u32,
)
    requires
        magic.len() == 4,
        version <= max_version,
        secs.len() <= u32::MAX,
        forall|i: int| 0 <= i < secs.len() ==> (#[trigger] secs[i]).1.len() < 0x10000000000000000,
        serialize_container(magic, version, secs).len() <= u64::MAX,
    ensures
        ({
            let data = serialize_container(magic, version, secs);
            let r = read_bin_file_spec(data, magic, max_version);
            &&& r is Ok
            &&& r.unwrap().len() == secs.len()
            &&& forall|i: int| #![trigger secs[i]]
                0 <= i < secs.len() ==> {
                    let t = r.unwrap();
                    t[i].0 == secs[i].0 && t[i].1.size == secs[i].1.len()
                        && data.subrange(t[i].1.offset as int, t[i].1.offset + t[i].1.size)
                        == secs[i].1
                }
        }),
{
    let data = serialize_container(magic, version, secs);
    let header = magic + u32_le_bytes(version) + u32_le_bytes(secs.len() as u32);
    lemma_u32_le_bytes_val(version);
    lemma_u32_le_bytes_val(secs.len() as u32);
    assert(data.subrange(0, 4) =~= magic);
    assert(data.subrange(4, 8) =~= u32_le_bytes(version));
    assert(data.subrange(8, 12) =~= u32_le_bytes(secs.len() as u32));
    assert(data.len() == 12 + serialize_sections(secs).len());
    assert(data.subrange(12, data.len() as int) =~= serialize_sections(secs));
    lemma_parse_of_serialized(data, 12, secs);
}

} // verus!
