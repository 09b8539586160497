//! The WebAssembly container: a magic number, a version, and then sections
//! until the input ends.

use crate::error::ReaderError;
use crate::leb128::{lemma_uleb128_bounds, read_uleb128, uleb128};
use crate::text::{same_text, starts_with};
use vstd::prelude::*;
use vstd::slice::slice_subrange;
use vstd::string::{StringExecFns, StringSliceAdditionalSpecFns};
use vstd::utf8::{decode_utf8, valid_utf8};

verus! {

/// Why a module could not be read.
#[derive(Debug)]
pub enum Error {
    /// The module does not begin with the bytes `\0asm`.
    InvalidMagic,
    /// The module's version is not 1.
    UnsupportedVersion(u32),
    /// The module has no code section.
    MissingCodeSection,
    /// The module's bytes or its debugging information are malformed.
    Reader(ReaderError),
}

/// What a section is: a custom section has a name, a standard one an id from
/// 1 to 255.
#[derive(Debug)]
pub enum SectionKind {
    Custom { name: String },
    Standard { id: u8 },
}

/// One section of a module: its kind, its payload (a view into the module's
/// bytes) and the payload's offset in the module.
#[derive(Debug)]
pub struct Section<'a> {
    pub kind: SectionKind,
    pub payload: &'a [u8],
    pub offset: usize,
}

/// What a `SectionKind` stands for.
pub enum KindView {
    Custom { name: Seq<char> },
    Standard { id: u8 },
}

/// What a `Section` stands for.
pub struct SectionView {
    pub kind: KindView,
    pub payload: Seq<u8>,
    pub offset: nat,
}

impl View for SectionKind {
    type V = KindView;

    open spec fn view(&self) -> KindView {
        match self {
            SectionKind::Custom { name } => KindView::Custom { name: name@ },
            SectionKind::Standard { id } => KindView::Standard { id: *id },
        }
    }
}

impl<'a> View for Section<'a> {
    type V = SectionView;

    open spec fn view(&self) -> SectionView {
        SectionView { kind: self.kind@, payload: self.payload@, offset: self.offset as nat }
    }
}

impl<'a> Section<'a> {
    /// A section lies where it says in the module `m`, and a standard
    /// section's id is not 0.
    pub open spec fn wf(&self, m: Seq<u8>) -> bool {
        &&& self.offset + self.payload@.len() <= m.len()
        &&& self.payload@ == m.subrange(self.offset as int, self.offset + self.payload@.len())
        &&& self.kind matches SectionKind::Standard { id } ==> id >= 1
    }
}

/// What the sections `v` stand for.
pub open spec fn views(v: Seq<Section<'_>>) -> Seq<SectionView> {
    v.map_values(|s: Section| s@)
}

/// The magic number that a module begins with: `\0asm`.
pub open spec fn has_magic(m: Seq<u8>) -> bool {
    m.len() >= 4 && m[0] == 0x00 && m[1] == 0x61 && m[2] == 0x73 && m[3] == 0x6d
}

/// The 32-bit number whose four bytes, lowest first, start at `pos`.
pub open spec fn u32_le(m: Seq<u8>, pos: int) -> int {
    m[pos] + 0x100 * m[pos + 1] + 0x1_0000 * m[pos + 2] + 0x100_0000 * m[pos + 3]
}

/// A block at `pos`: a length, as an unsigned LEB128 number, and then that
/// many bytes, all before `end`. The result is where those bytes start and
/// where they end.
pub open spec fn block_at(m: Seq<u8>, pos: int, end: int) -> Result<(int, int), ReaderError> {
    match uleb128(m, pos, end) {
        Err(e) => Err(e),
        Ok((len, start)) => if len > usize::MAX {
            Err(ReaderError::UnsupportedOffset)
        } else if len > end - start {
            Err(ReaderError::UnexpectedEof)
        } else {
            Ok((start, start + len))
        },
    }
}

/// The section that starts at `pos`, and the position after it.
///
/// A section is its id, as an unsigned LEB128 number that fits a byte, and a
/// block. With id 0 it is a custom section: its block begins with another
/// block, the section's name in UTF-8, and what follows the name is the
/// payload. With any other id the whole block is the payload.
pub open spec fn section_at(m: Seq<u8>, pos: int) -> Result<(SectionView, int), ReaderError> {
    match uleb128(m, pos, m.len() as int) {
        Err(e) => Err(e),
        Ok((id, after_id)) => if id > 255 {
            Err(ReaderError::BadUnsignedLeb128)
        } else {
            match block_at(m, after_id, m.len() as int) {
                Err(e) => Err(e),
                Ok((start, end)) => if id == 0 {
                    match block_at(m, start, end) {
                        Err(e) => Err(e),
                        Ok((name_start, name_end)) => if !valid_utf8(
                            m.subrange(name_start, name_end),
                        ) {
                            Err(ReaderError::BadUtf8)
                        } else {
                            Ok(
                                (
                                    SectionView {
                                        kind: KindView::Custom {
                                            name: decode_utf8(m.subrange(name_start, name_end)),
                                        },
                                        payload: m.subrange(name_end, end),
                                        offset: name_end as nat,
                                    },
                                    end,
                                ),
                            )
                        },
                    }
                } else {
                    Ok(
                        (
                            SectionView {
                                kind: KindView::Standard { id: id as u8 },
                                payload: m.subrange(start, end),
                                offset: start as nat,
                            },
                            end,
                        ),
                    )
                },
            }
        },
    }
}

/// A block lies after the position it is read at, and ends by `end`.
pub proof fn lemma_block_bounds(m: Seq<u8>, pos: int, end: int)
    ensures
        block_at(m, pos, end) matches Ok((start, stop)) ==> 0 <= pos < start <= stop <= end
            <= m.len(),
{
    lemma_uleb128_bounds(m, pos, end, 0);
}

/// A section ends after the position it starts at, and within the module.
pub proof fn lemma_section_bounds(m: Seq<u8>, pos: int)
    ensures
        section_at(m, pos) matches Ok((section, next)) ==> {
            &&& 0 <= pos < next <= m.len()
            &&& section.offset + section.payload.len() == next
            &&& section.payload == m.subrange(section.offset as int, next)
            &&& section.kind matches KindView::Standard { id } ==> id >= 1
        },
{
    lemma_uleb128_bounds(m, pos, m.len() as int, 0);
    if let Ok((id, after_id)) = uleb128(m, pos, m.len() as int) {
        lemma_block_bounds(m, after_id, m.len() as int);
        if let Ok((start, end)) = block_at(m, after_id, m.len() as int) {
            lemma_block_bounds(m, start, end);
        }
    }
}

/// The sections from `pos` to the end of the module.
pub open spec fn sections_from(m: Seq<u8>, pos: int) -> Result<Seq<SectionView>, ReaderError>
    decreases m.len() - pos,
    via sections_from_decreases
{
    if pos >= m.len() {
        Ok(Seq::empty())
    } else {
        match section_at(m, pos) {
            Err(e) => Err(e),
            Ok((section, next)) => match sections_from(m, next) {
                Err(e) => Err(e),
                Ok(rest) => Ok(seq![section] + rest),
            },
        }
    }
}

#[via_fn]
proof fn sections_from_decreases(m: Seq<u8>, pos: int) {
    lemma_section_bounds(m, pos);
}

/// The sections of the module `m`: after the magic number and version 1, as
/// four bytes each, sections follow each other until the input ends.
pub open spec fn module_sections(m: Seq<u8>) -> Result<Seq<SectionView>, Error> {
    if !has_magic(m) {
        Err(Error::InvalidMagic)
    } else if m.len() < 8 {
        Err(Error::Reader(ReaderError::UnexpectedEof))
    } else if u32_le(m, 4) != 1 {
        Err(Error::UnsupportedVersion(u32_le(m, 4) as u32))
    } else {
        match sections_from(m, 8) {
            Err(e) => Err(Error::Reader(e)),
            Ok(sections) => Ok(sections),
        }
    }
}

/// `core::str::from_utf8`: the bytes as a string slice, if they are valid
/// UTF-8, and nothing if they are not. The slice's bytes are the given ones.
#[verifier::external_body]
fn from_utf8(bytes: &[u8]) -> (r: Option<&str>)
    ensures
        match r {
            Some(s) => valid_utf8(bytes@) && s.spec_bytes() == bytes@,
            None => !valid_utf8(bytes@),
        },
{
    core::str::from_utf8(bytes).ok()
}

/// Reads the block at `pos`, which ends by `end`.
fn read_block(src: &[u8], pos: usize, end: usize) -> (r: Result<(usize, usize), ReaderError>)
    ensures
        match r {
            Ok((start, stop)) => block_at(src@, pos as int, end as int) == Ok::<
                (int, int),
                ReaderError,
            >((start as int, stop as int)),
            Err(e) => block_at(src@, pos as int, end as int) == Err::<(int, int), ReaderError>(e),
        },
{
    match read_uleb128(src, pos, end) {
        Err(e) => Err(e),
        Ok((len, start)) => {
            if len > usize::MAX as u64 {
                Err(ReaderError::UnsupportedOffset)
            } else if len as usize > end - start {
                Err(ReaderError::UnexpectedEof)
            } else {
                Ok((start, start + len as usize))
            }
        },
    }
}

/// Reads the section at `pos`.
fn read_section<'a>(src: &'a [u8], pos: usize) -> (r: Result<(Section<'a>, usize), ReaderError>)
    ensures
        match r {
            Ok((section, next)) => section_at(src@, pos as int) == Ok::<
                (SectionView, int),
                ReaderError,
            >((section@, next as int)) && section.wf(src@),
            Err(e) => section_at(src@, pos as int) == Err::<(SectionView, int), ReaderError>(e),
        },
{
    broadcast use vstd::utf8::encode_utf8_decode_utf8;

    proof {
        lemma_section_bounds(src@, pos as int);
    }
    let (id, after_id) = match read_uleb128(src, pos, src.len()) {
        Err(e) => {
            return Err(e);
        },
        Ok(read) => read,
    };
    if id > 255 {
        return Err(ReaderError::BadUnsignedLeb128);
    }
    let (start, end) = match read_block(src, after_id, src.len()) {
        Err(e) => {
            return Err(e);
        },
        Ok(block) => block,
    };
    proof {
        lemma_block_bounds(src@, after_id as int, src@.len() as int);
        lemma_block_bounds(src@, start as int, end as int);
    }
    if id == 0 {
        let (name_start, name_end) = match read_block(src, start, end) {
            Err(e) => {
                return Err(e);
            },
            Ok(block) => block,
        };
        let name = match from_utf8(slice_subrange(src, name_start, name_end)) {
            None => {
                return Err(ReaderError::BadUtf8);
            },
            Some(name) => String::from_str(name),
        };
        let section = Section {
            kind: SectionKind::Custom { name },
            payload: slice_subrange(src, name_end, end),
            offset: name_end,
        };
        Ok((section, end))
    } else {
        let section = Section {
            kind: SectionKind::Standard { id: id as u8 },
            payload: slice_subrange(src, start, end),
            offset: start,
        };
        Ok((section, end))
    }
}

/// Splits a module into its sections.
///
/// Fails with `InvalidMagic` where the module does not begin with `\0asm`,
/// be it too short for that; with `UnsupportedVersion` where its version is
/// not 1; and with a reader's error where the input ends in the version or
/// in a section, or a section is malformed.
pub fn parse_sections<'a>(src: &'a [u8]) -> (r: Result<Vec<Section<'a>>, Error>)
    ensures
        match r {
            Ok(sections) => {
                &&& module_sections(src@) == Ok::<Seq<SectionView>, Error>(views(sections@))
                &&& forall|i: int| 0 <= i < sections@.len() ==> (#[trigger] sections@[i]).wf(src@)
            },
            Err(e) => module_sections(src@) == Err::<Seq<SectionView>, Error>(e),
        },
{
    if src.len() < 4 || src[0] != 0x00 || src[1] != 0x61 || src[2] != 0x73 || src[3] != 0x6d {
        return Err(Error::InvalidMagic);
    }
    if src.len() < 8 {
        return Err(Error::Reader(ReaderError::UnexpectedEof));
    }
    let version: u32 = src[4] as u32 + 0x100 * (src[5] as u32) + 0x1_0000 * (src[6] as u32)
        + 0x100_0000 * (src[7] as u32);
    if version != 1 {
        return Err(Error::UnsupportedVersion(version));
    }
    let mut sections: Vec<Section<'a>> = Vec::new();
    let mut pos: usize = 8;
    while pos < src.len()
        invariant
            8 <= pos <= src.len(),
            has_magic(src@),
            u32_le(src@, 4) == 1,
            forall|i: int| 0 <= i < sections@.len() ==> (#[trigger] sections@[i]).wf(src@),
            match sections_from(src@, pos as int) {
                Ok(rest) => sections_from(src@, 8) == Ok::<Seq<SectionView>, ReaderError>(
                    views(sections@) + rest,
                ),
                Err(e) => sections_from(src@, 8) == Err::<Seq<SectionView>, ReaderError>(e),
            },
        decreases src.len() - pos,
    {
        proof {
            lemma_section_bounds(src@, pos as int);
        }
        match read_section(src, pos) {
            Err(e) => {
                return Err(Error::Reader(e));
            },
            Ok((section, next)) => {
                proof {
                    let before = views(sections@);
                    let after = views(sections@.push(section));
                    assert(after =~= before.push(section@));
                    if let Ok(rest) = sections_from(src@, next as int) {
                        assert(before + (seq![section@] + rest) =~= after + rest);
                    }
                }
                sections.push(section);
                pos = next;
            },
        }
    }
    proof {
        assert(views(sections@) + Seq::<SectionView>::empty() =~= views(sections@));
    }
    Ok(sections)
}

/// The id of the code section.
pub const CODE_SECTION: u8 = 10;

/// Whether a custom section with the name `name` holds debugging
/// information: whether the name begins with `.debug_`.
pub open spec fn is_debug_name(name: Seq<char>) -> bool {
    ".debug_"@.is_prefix_of(name)
}

/// The offset of the code section's payload in the module: that of the last
/// standard section with the id 10, if there is one.
pub open spec fn code_section_offset(sections: Seq<SectionView>) -> Option<nat>
    decreases sections.len(),
{
    if sections.len() == 0 {
        None
    } else if sections.last().kind == (KindView::Standard { id: CODE_SECTION }) {
        Some(sections.last().offset)
    } else {
        code_section_offset(sections.drop_last())
    }
}

/// The sections of debugging information among `sections`, each with its
/// name and payload, in the order of the module.
pub open spec fn debug_sections(sections: Seq<SectionView>) -> Seq<(Seq<char>, Seq<u8>)>
    decreases sections.len(),
{
    if sections.len() == 0 {
        Seq::empty()
    } else {
        let before = debug_sections(sections.drop_last());
        match sections.last().kind {
            KindView::Custom { name } => if is_debug_name(name) {
                before.push((name, sections.last().payload))
            } else {
                before
            },
            KindView::Standard { id } => before,
        }
    }
}

/// The payload that `named` holds under `name`: that of the last section
/// with that name, and no bytes where there is none.
pub open spec fn payload_of(named: Seq<(Seq<char>, Seq<u8>)>, name: Seq<char>) -> Seq<u8>
    decreases named.len(),
{
    if named.len() == 0 {
        Seq::empty()
    } else if named.last().0 == name {
        named.last().1
    } else {
        payload_of(named.drop_last(), name)
    }
}

/// One section of debugging information: its name and its payload.
pub struct DebugSection<'a> {
    pub name: String,
    pub payload: &'a [u8],
}

/// The sections of debugging information of a module, by name. A module has
/// a handful of them: they are kept in the order of the module, and one is
/// found by going through them from the last, so that of two sections with
/// one name the later counts.
pub struct DebugSections<'a> {
    sections: Vec<DebugSection<'a>>,
}

impl<'a> View for DebugSections<'a> {
    type V = Seq<(Seq<char>, Seq<u8>)>;

    closed spec fn view(&self) -> Seq<(Seq<char>, Seq<u8>)> {
        self.sections@.map_values(|section: DebugSection| (section.name@, section.payload@))
    }
}

impl<'a> DebugSections<'a> {
    /// No sections.
    pub fn new() -> (sections: Self)
        ensures
            sections@ == Seq::<(Seq<char>, Seq<u8>)>::empty(),
    {
        let sections = DebugSections { sections: Vec::new() };
        assert(sections@ =~= Seq::<(Seq<char>, Seq<u8>)>::empty());
        sections
    }

    /// Adds a section. It takes the place of an earlier one with its name.
    pub fn insert(&mut self, name: String, payload: &'a [u8])
        ensures
            final(self)@ == old(self)@.push((name@, payload@)),
    {
        self.sections.push(DebugSection { name, payload });
        assert(self@ =~= old(self)@.push((name@, payload@)));
    }

    /// The payload of the section `name`, and no bytes where the module has
    /// no such section.
    pub fn get(&self, name: &str) -> (payload: &'a [u8])
        ensures
            payload@ == payload_of(self@, name@),
    {
        let mut n: usize = self.sections.len();
        proof {
            assert(self@.take(n as int) =~= self@);
        }
        while n > 0
            invariant
                n <= self.sections.len(),
                payload_of(self@, name@) == payload_of(self@.take(n as int), name@),
            decreases n,
        {
            let section = &self.sections[n - 1];
            proof {
                assert(self@.take(n as int).last() == (section.name@, section.payload@));
                assert(self@.take(n as int).drop_last() =~= self@.take(n - 1));
            }
            if same_text(section.name.as_str(), name) {
                return section.payload;
            }
            n = n - 1;
        }
        let empty: &'a [u8] = &[];
        proof {
            assert(self@.take(0).len() == 0);
        }
        empty
    }
}

/// What the resolver needs of a module: where its code section lies, and its
/// sections of debugging information.
pub struct Module<'a> {
    pub code_section_offset: usize,
    pub debug_sections: DebugSections<'a>,
}

/// What a module's sections are read for: the offset of the code section and
/// the sections of debugging information. A module without a code section is
/// refused, since no address in it would have a base.
pub open spec fn module_of(m: Seq<u8>) -> Result<(nat, Seq<(Seq<char>, Seq<u8>)>), Error> {
    match module_sections(m) {
        Err(e) => Err(e),
        Ok(sections) => match code_section_offset(sections) {
            None => Err(Error::MissingCodeSection),
            Some(offset) => Ok((offset, debug_sections(sections))),
        },
    }
}

/// Reads a module: finds its code section and collects its sections of
/// debugging information.
pub fn parse_module<'a>(src: &'a [u8]) -> (r: Result<Module<'a>, Error>)
    ensures
        match r {
            Ok(module) => module_of(src@) == Ok::<(nat, Seq<(Seq<char>, Seq<u8>)>), Error>(
                (module.code_section_offset as nat, module.debug_sections@),
            ) && module.code_section_offset <= src@.len(),
            Err(e) => module_of(src@) == Err::<(nat, Seq<(Seq<char>, Seq<u8>)>), Error>(e),
        },
{
    let sections = match parse_sections(src) {
        Err(e) => {
            return Err(e);
        },
        Ok(sections) => sections,
    };
    let ghost all = views(sections@);
    let mut offset: Option<usize> = None;
    let mut debug = DebugSections::new();
    let mut n: usize = 0;
    proof {
        assert(all.take(0) =~= Seq::<SectionView>::empty());
    }
    while n < sections.len()
        invariant
            n <= sections.len(),
            all == views(sections@),
            forall|i: int| 0 <= i < sections@.len() ==> (#[trigger] sections@[i]).wf(src@),
            debug@ == debug_sections(all.take(n as int)),
            match offset {
                Some(offset) => code_section_offset(all.take(n as int)) == Some(offset as nat)
                    && offset <= src@.len(),
                None => code_section_offset(all.take(n as int)) is None,
            },
        decreases sections.len() - n,
    {
        let section = &sections[n];
        proof {
            assert(all.take(n + 1).drop_last() =~= all.take(n as int));
            assert(all.take(n + 1).last() == section@);
            assert(section.wf(src@));
        }
        match &section.kind {
            SectionKind::Custom { name } => {
                if starts_with(name.as_str(), ".debug_") {
                    debug.insert(name.clone(), section.payload);
                }
            },
            SectionKind::Standard { id } => {
                if *id == CODE_SECTION {
                    offset = Some(section.offset);
                }
            },
        }
        n = n + 1;
    }
    proof {
        assert(all.take(n as int) =~= all);
    }
    match offset {
        None => Err(Error::MissingCodeSection),
        Some(code_section_offset) => Ok(Module { code_section_offset, debug_sections: debug }),
    }
}

} // verus!
