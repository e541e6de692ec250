//! COFF objects and archives, as the `object` crate reads them.
//!
//! The functions here hand bytes to that crate and turn what comes back into plain values.
use crate::input::{InputRelocationTarget, InputSymbol, SymbolSection, SymbolView};
use object::read::archive::{ArchiveFile, ArchiveOffset};
use object::{FileKind, Object, ObjectSection, ObjectSymbol};
use vstd::prelude::*;
use vstd::utf8;

verus! {

/// What a file is.
#[derive(Clone, Copy, PartialEq, Eq, Debug, Structural)]
pub enum InputKind {
    /// A COFF object.
    Coff,
    /// A COFF object with a large section table.
    CoffBig,
    /// An import library member.
    CoffImport,
    /// An archive.
    Archive,
    DyldCache,
    Elf32,
    Elf64,
    MachO32,
    MachO64,
    MachOFat32,
    MachOFat64,
    Pe32,
    Pe64,
    Xcoff32,
    Xcoff64,
    /// Anything else.
    Other,
}

/// What went wrong in an archive.
#[derive(Clone, Copy, PartialEq, Eq, Debug, Structural)]
pub enum ArchiveFailure {
    /// The archive itself cannot be read.
    Parse,
    /// The symbol table cannot be read.
    Symbols,
    /// One symbol cannot be read.
    Symbol,
    /// The member cannot be read.
    Member,
}

/// A relocation as it is read; what is `None` is not of a kind that COFF has.
#[derive(Clone, Copy, Debug)]
pub struct RawRelocation {
    pub offset: u64,
    pub typ: Option<u16>,
    pub target: Option<InputRelocationTarget>,
}

/// A section as it is read; what is `None` cannot be read.
#[derive(Debug)]
pub struct RawSection {
    pub name: Option<Vec<u8>>,
    pub characteristics: Option<u32>,
    pub data: Option<Vec<u8>>,
    pub size: u64,
}

/// Model of a section as it is read.
pub struct RawSectionView {
    pub name: Option<Seq<u8>>,
    pub characteristics: Option<u32>,
    pub data: Option<Seq<u8>>,
    pub size: u64,
}

/// The bytes of an optional byte string.
pub open spec fn bytes_of(data: Option<Vec<u8>>) -> Option<Seq<u8>> {
    match data {
        Some(v) => Some(v@),
        None => None,
    }
}

impl View for RawSection {
    type V = RawSectionView;

    open spec fn view(&self) -> RawSectionView {
        RawSectionView {
            name: bytes_of(self.name),
            characteristics: self.characteristics,
            data: bytes_of(self.data),
            size: self.size,
        }
    }
}

/// The model of an optional section.
pub open spec fn section_view(section: Option<RawSection>) -> Option<RawSectionView> {
    match section {
        Some(s) => Some(s@),
        None => None,
    }
}

/// The model of an optional symbol.
pub open spec fn symbol_view(symbol: Option<InputSymbol>) -> Option<SymbolView> {
    match symbol {
        Some(s) => Some(s@),
        None => None,
    }
}

/// The contents of an optional list.
pub open spec fn list_view<T>(list: Option<Vec<T>>) -> Option<Seq<T>> {
    match list {
        Some(v) => Some(v@),
        None => None,
    }
}

/// The kind that `object::FileKind::parse` finds, if it finds one.
pub uninterp spec fn file_kind_of(data: Seq<u8>) -> Option<InputKind>;

/// Returns the kind of a file, by `object::FileKind::parse`. The kind depends on the bytes alone; a
/// kind that has no name here counts as `Other`, and `None` means that the kind is not known.
#[verifier::external_body]
pub(crate) fn file_kind(data: &[u8]) -> (r: Option<InputKind>)
    ensures
        r == file_kind_of(data@),
{
    Some(match FileKind::parse(data).ok()? {
        FileKind::Coff => InputKind::Coff, FileKind::CoffBig => InputKind::CoffBig,
        FileKind::CoffImport => InputKind::CoffImport, FileKind::Archive => InputKind::Archive,
        FileKind::DyldCache => InputKind::DyldCache, FileKind::Elf32 => InputKind::Elf32,
        FileKind::Elf64 => InputKind::Elf64, FileKind::MachO32 => InputKind::MachO32,
        FileKind::MachO64 => InputKind::MachO64, FileKind::MachOFat32 => InputKind::MachOFat32,
        FileKind::MachOFat64 => InputKind::MachOFat64, FileKind::Pe32 => InputKind::Pe32,
        FileKind::Pe64 => InputKind::Pe64, FileKind::Xcoff32 => InputKind::Xcoff32,
        FileKind::Xcoff64 => InputKind::Xcoff64, _ => InputKind::Other,
    })
}

/// Whether `object::FileKind::parse` finds that the bytes are a COFF object.
pub open spec fn is_coff(data: Seq<u8>) -> bool {
    file_kind_of(data) == Some(InputKind::Coff) || file_kind_of(data) == Some(InputKind::CoffBig)
}

/// The indices of the sections that `Object::sections` goes through, if `object::File::parse`
/// accepts the bytes.
pub uninterp spec fn coff_sections(data: Seq<u8>) -> Option<Seq<usize>>;

/// Returns the indices of the sections of an object, by `object::File::parse` and
/// `Object::sections`, in their order. They depend on the bytes alone; `None` means that the
/// bytes are a broken object.
#[verifier::external_body]
pub(crate) fn section_indices(data: &[u8]) -> (r: Option<Vec<usize>>)
    requires
        is_coff(data@),
    ensures
        list_view(r) == coff_sections(data@),
{
    let file = object::File::parse(data).ok()?;
    Some(file.sections().map(|section| section.index().0).collect())
}

/// What the section with this index holds, if there is one.
pub uninterp spec fn coff_section(data: Seq<u8>, index: usize) -> Option<RawSectionView>;

/// Returns what the section with this index holds, by `Object::section_by_index`: its name, flags,
/// data and size, as far as each can be read. It depends on the bytes and the index alone.
#[verifier::external_body]
pub(crate) fn read_section(data: &[u8], index: usize) -> (r: Option<RawSection>)
    requires
        is_coff(data@),
    ensures
        section_view(r) == coff_section(data@, index),
{
    let file = object::File::parse(data).ok()?;
    let section = file.section_by_index(object::SectionIndex(index)).ok()?;
    let characteristics = match section.flags() {
        object::SectionFlags::Coff { characteristics } => Some(characteristics),
        _ => None,
    };
    Some(
        RawSection {
            name: section.name_bytes().ok().map(|name| name.to_vec()),
            characteristics,
            data: section.data().ok().map(|data| data.to_vec()),
            size: section.size(),
        },
    )
}

/// The relocations of the section with this index, if there is one.
pub uninterp spec fn coff_relocations(data: Seq<u8>, index: usize) -> Option<Seq<RawRelocation>>;

/// Returns the relocations of the section with this index, by `ObjectSection::relocations`, in
/// their order. They depend on the bytes and the index alone.
#[verifier::external_body]
pub(crate) fn read_relocations(data: &[u8], index: usize) -> (r: Option<Vec<RawRelocation>>)
    requires
        is_coff(data@),
    ensures
        list_view(r) == coff_relocations(data@, index),
{
    let file = object::File::parse(data).ok()?;
    let section = file.section_by_index(object::SectionIndex(index)).ok()?;
    Some(section.relocations().map(|(offset, relocation)| RawRelocation {
        offset,
        typ: match relocation.flags() {
            object::RelocationFlags::Coff { typ } => Some(typ),
            _ => None,
        },
        target: match relocation.target() {
            object::RelocationTarget::Symbol(symbol) => Some(InputRelocationTarget::Symbol(symbol.0)),
            object::RelocationTarget::Section(section) => Some(InputRelocationTarget::Section(section.0)),
            object::RelocationTarget::Absolute => Some(InputRelocationTarget::Absolute),
            _ => None,
        },
    }).collect())
}

/// The indices of the symbols that `Object::symbols` goes through, if `object::File::parse`
/// accepts the bytes.
pub uninterp spec fn coff_symbols(data: Seq<u8>) -> Option<Seq<usize>>;

/// Returns the indices of the symbols of an object, by `object::File::parse` and
/// `Object::symbols`, in their order. They depend on the bytes alone; `None` means that the bytes
/// are a broken object.
#[verifier::external_body]
pub(crate) fn symbol_indices(data: &[u8]) -> (r: Option<Vec<usize>>)
    requires
        is_coff(data@),
    ensures
        list_view(r) == coff_symbols(data@),
{
    let file = object::File::parse(data).ok()?;
    Some(file.symbols().map(|symbol| symbol.index().0).collect())
}

/// What the symbol with this index is, if there is one.
pub uninterp spec fn coff_symbol(data: Seq<u8>, index: usize) -> Option<SymbolView>;

/// Returns what the symbol with this index is, by `Object::symbol_by_index`: its name, if that can
/// be read, its section, its address, and whether it is undefined, a definition, local. It depends
/// on the bytes and the index alone. A kind of section that is not known here counts as `Unknown`.
/// Only COFF objects are admitted: their addresses start at zero, while the sum of the image base
/// and an address in a linked image may exceed 64 bits.
#[verifier::external_body]
pub(crate) fn read_symbol(data: &[u8], index: usize) -> (r: Option<InputSymbol>)
    requires
        is_coff(data@),
    ensures
        symbol_view(r) == coff_symbol(data@, index),
{
    let file = object::File::parse(data).ok()?;
    let symbol = file.symbol_by_index(object::SymbolIndex(index)).ok()?;
    let section = match symbol.section() {
        object::SymbolSection::None => SymbolSection::Nowhere,
        object::SymbolSection::Undefined => SymbolSection::Undefined,
        object::SymbolSection::Absolute => SymbolSection::Absolute,
        object::SymbolSection::Common => SymbolSection::Common,
        object::SymbolSection::Section(section) => SymbolSection::Section(section.0),
        _ => SymbolSection::Unknown,
    };
    let (name, value) = (symbol.name().ok().map(str::to_owned), symbol.address());
    let (is_undefined, is_definition) = (symbol.is_undefined(), symbol.is_definition());
    Some(InputSymbol { name, section, value, is_undefined, is_definition, is_local: symbol.is_local() })
}

/// The names and offsets in a list of archive symbols.
pub open spec fn archive_symbol_views(symbols: Seq<(Vec<u8>, u64)>) -> Seq<(Seq<u8>, u64)> {
    Seq::new(symbols.len(), |i: int| (symbols[i].0@, symbols[i].1))
}

/// The model of what `archive_symbols` returns.
pub open spec fn archive_symbols_view(
    r: Result<Option<Vec<(Vec<u8>, u64)>>, ArchiveFailure>,
) -> Result<Option<Seq<(Seq<u8>, u64)>>, ArchiveFailure> {
    match r {
        Ok(Some(symbols)) => Ok(Some(archive_symbol_views(symbols@))),
        Ok(None) => Ok(None),
        Err(e) => Err(e),
    }
}

/// The symbol table that `ArchiveFile::symbols` finds in an archive.
pub uninterp spec fn archive_symbols_of(data: Seq<u8>) -> Result<
    Option<Seq<(Seq<u8>, u64)>>,
    ArchiveFailure,
>;

/// Returns the symbols of an archive, each with the offset of the member that defines it, by
/// `ArchiveFile::parse` and `ArchiveFile::symbols`, in their order; `None` if there is no table.
/// They depend on the bytes alone.
#[verifier::external_body]
pub(crate) fn archive_symbols(data: &[u8]) -> (r: Result<
    Option<Vec<(Vec<u8>, u64)>>,
    ArchiveFailure,
>)
    ensures
        archive_symbols_view(r) == archive_symbols_of(data@),
{
    let archive = ArchiveFile::parse(data).map_err(|_| ArchiveFailure::Parse)?;
    let symbols = match archive.symbols().map_err(|_| ArchiveFailure::Symbols)? {
        Some(symbols) => symbols,
        None => return Ok(None),
    };
    let all: Result<Vec<(Vec<u8>, u64)>, object::Error> =
        symbols.map(|symbol| symbol.map(|s| (s.name().to_vec(), s.offset().0))).collect();
    all.map(Some).map_err(|_| ArchiveFailure::Symbol)
}

/// The contents of a list, or the failure.
pub open spec fn list_result_view(r: Result<Vec<u8>, ArchiveFailure>) -> Result<
    Seq<u8>,
    ArchiveFailure,
> {
    match r {
        Ok(v) => Ok(v@),
        Err(e) => Err(e),
    }
}

/// The name of the member at an offset of an archive.
pub uninterp spec fn archive_member_name_of(data: Seq<u8>, offset: u64) -> Result<
    Seq<u8>,
    ArchiveFailure,
>;

/// Returns the name of the member at an offset of an archive, by `ArchiveFile::parse`,
/// `ArchiveFile::member` and `ArchiveMember::name`. It depends on the bytes and the offset alone.
#[verifier::external_body]
pub(crate) fn archive_member_name(data: &[u8], offset: u64) -> (r: Result<
    Vec<u8>,
    ArchiveFailure,
>)
    ensures
        list_result_view(r) == archive_member_name_of(data@, offset),
{
    let archive = ArchiveFile::parse(data).map_err(|_| ArchiveFailure::Parse)?;
    let member = archive.member(ArchiveOffset(offset)).map_err(|_| ArchiveFailure::Member)?;
    Ok(member.name().to_vec())
}

/// The contents of the member at an offset of an archive, if they can be read.
pub uninterp spec fn archive_member_data_of(data: Seq<u8>, offset: u64) -> Option<Seq<u8>>;

/// Returns the contents of the member at an offset of an archive, by `ArchiveMember::data`. They
/// depend on the bytes and the offset alone.
#[verifier::external_body]
pub(crate) fn archive_member_data(data: &[u8], offset: u64) -> (r: Option<Vec<u8>>)
    ensures
        bytes_of(r) == archive_member_data_of(data@, offset),
{
    let archive = ArchiveFile::parse(data).ok()?;
    let member = archive.member(ArchiveOffset(offset)).ok()?;
    Some(member.data(data).ok()?.to_vec())
}

/// The text that `String::from_utf8_lossy` makes of bytes.
pub uninterp spec fn lossy_text(bytes: Seq<u8>) -> Seq<char>;

/// Returns the text that bytes stand for, by `String::from_utf8_lossy`. It depends on the bytes
/// alone, and valid UTF-8 is taken as it is; nothing is said of how invalid bytes are replaced.
#[verifier::external_body]
pub(crate) fn text_lossy(bytes: &[u8]) -> (r: String)
    ensures
        r@ == lossy_text(bytes@),
        utf8::valid_utf8(bytes@) ==> r@ == utf8::decode_utf8(bytes@),
{
    String::from_utf8_lossy(bytes).into_owned()
}

} // verus!
