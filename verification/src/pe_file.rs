//! Linked images, as the `object` crate reads them.
//!
//! The functions here hand bytes to that crate and turn what comes back into plain values.
use object::read::pe::{ImageNtHeaders, ImageOptionalHeader, PeFile64};
use object::{LittleEndian, Object, ObjectSection};
use vstd::prelude::*;

verus! {

/// What is compared of the headers of an image.
#[derive(Clone, Copy, PartialEq, Eq, Debug, Structural)]
pub struct PeHeader {
    pub machine: u16,
    pub subsystem: u16,
    pub characteristics: u16,
    pub entry_point: u32,
}

/// A section of an image; what is `None` cannot be read.
#[derive(Debug)]
pub struct PeSection {
    pub name: Option<String>,
    pub characteristics: Option<u32>,
}

/// Model of a section of an image.
pub struct PeSectionView {
    pub name: Option<Seq<char>>,
    pub characteristics: Option<u32>,
}

impl View for PeSection {
    type V = PeSectionView;

    open spec fn view(&self) -> PeSectionView {
        PeSectionView {
            name: crate::input::text_of(self.name),
            characteristics: self.characteristics,
        }
    }
}

/// The models of a list of sections.
pub open spec fn section_views(sections: Seq<PeSection>) -> Seq<PeSectionView> {
    Seq::new(sections.len(), |k: int| sections[k]@)
}

/// The models of a list of sections, if there is one.
pub open spec fn sections_view(sections: Option<Vec<PeSection>>) -> Option<Seq<PeSectionView>> {
    match sections {
        Some(list) => Some(section_views(list@)),
        None => None,
    }
}

/// A block of base relocations: the page that it is for, and the types of its entries.
#[derive(Debug)]
pub struct RelocationBlock {
    pub page: u32,
    pub types: Vec<u16>,
}

/// Model of a block of base relocations.
pub struct RelocationBlockView {
    pub page: u32,
    pub types: Seq<u16>,
}

impl View for RelocationBlock {
    type V = RelocationBlockView;

    open spec fn view(&self) -> RelocationBlockView {
        RelocationBlockView { page: self.page, types: self.types@ }
    }
}

/// The models of a list of blocks.
pub open spec fn block_views(blocks: Seq<RelocationBlock>) -> Seq<RelocationBlockView> {
    Seq::new(blocks.len(), |k: int| blocks[k]@)
}

/// The models of the blocks that were read, if they could be and if there are any.
pub open spec fn blocks_view(blocks: Option<Option<Vec<RelocationBlock>>>) -> Option<
    Option<Seq<RelocationBlockView>>,
> {
    match blocks {
        Some(Some(list)) => Some(Some(block_views(list@))),
        Some(None) => Some(None),
        None => None,
    }
}

/// The names in a list of imports.
pub open spec fn import_views(imports: Seq<(Vec<u8>, Vec<u8>)>) -> Seq<(Seq<u8>, Seq<u8>)> {
    Seq::new(imports.len(), |k: int| (imports[k].0@, imports[k].1@))
}

/// The names in the imports that were read, if they could be.
pub open spec fn imports_view(imports: Option<Vec<(Vec<u8>, Vec<u8>)>>) -> Option<
    Seq<(Seq<u8>, Seq<u8>)>,
> {
    match imports {
        Some(list) => Some(import_views(list@)),
        None => None,
    }
}

/// What `PeFile64::parse` finds in the headers of an image, if it accepts the bytes.
pub uninterp spec fn pe_header_of(data: Seq<u8>) -> Option<PeHeader>;

/// Returns what is compared of the headers of an image, by `PeFile64::parse`. It depends on the
/// bytes alone; `None` means that the bytes are no 64-bit image.
#[verifier::external_body]
pub(crate) fn read_header(data: &[u8]) -> (r: Option<PeHeader>)
    ensures
        r == pe_header_of(data@),
{
    let file = PeFile64::parse(data).ok()?;
    let header = file.nt_headers().file_header();
    let optional_header = file.nt_headers().optional_header();
    Some(
        PeHeader {
            machine: header.machine.get(LittleEndian),
            subsystem: optional_header.subsystem(),
            characteristics: header.characteristics.get(LittleEndian),
            entry_point: optional_header.address_of_entry_point(),
        },
    )
}

/// The sections that `Object::sections` goes through, if `PeFile64::parse` accepts the bytes.
pub uninterp spec fn pe_sections_of(data: Seq<u8>) -> Option<Seq<PeSectionView>>;

/// Returns the sections of an image, by `PeFile64::parse` and `Object::sections`, in their order,
/// each with its name, if that is valid text, and its flags. They depend on the bytes alone.
#[verifier::external_body]
pub(crate) fn read_sections(data: &[u8]) -> (r: Option<Vec<PeSection>>)
    ensures
        sections_view(r) == pe_sections_of(data@),
{
    let file = PeFile64::parse(data).ok()?;
    Some(file.sections().map(|section| PeSection {
        name: section.name().ok().map(str::to_owned),
        characteristics: match section.flags() {
            object::SectionFlags::Coff { characteristics } => Some(characteristics),
            _ => None,
        },
    }).collect())
}

/// The address and the size in a data directory of an image, if there is one with this index.
pub uninterp spec fn pe_directory_of(data: Seq<u8>, index: usize) -> Option<(u32, u32)>;

/// Returns the address and the size in a data directory of an image, by
/// `PeFile64::data_directory`. They depend on the bytes and the index alone.
#[verifier::external_body]
pub(crate) fn read_directory(data: &[u8], index: usize) -> (r: Option<(u32, u32)>)
    ensures
        r == pe_directory_of(data@, index),
{
    let file = PeFile64::parse(data).ok()?;
    let directory = file.data_directory(index)?;
    Some((directory.virtual_address.get(LittleEndian), directory.size.get(LittleEndian)))
}

/// The libraries and names that `Object::imports` finds in an image, if it can read them.
pub uninterp spec fn pe_imports_of(data: Seq<u8>) -> Option<Seq<(Seq<u8>, Seq<u8>)>>;

/// Returns what an image imports by name, by `Object::imports`, in its order: each time the
/// library and the name. It depends on the bytes alone; `None` means that it cannot be read.
#[verifier::external_body]
pub(crate) fn read_imports(data: &[u8]) -> (r: Option<Vec<(Vec<u8>, Vec<u8>)>>)
    ensures
        imports_view(r) == pe_imports_of(data@),
{
    let file = PeFile64::parse(data).ok()?;
    let imports = file.imports().ok()?;
    Some(imports.iter().map(|i| (i.library().to_vec(), i.name().to_vec())).collect())
}

/// The base relocations that `DataDirectories::relocation_blocks` finds in an image, if it can
/// read them and if there is a directory for them.
pub uninterp spec fn pe_blocks_of(data: Seq<u8>) -> Option<Option<Seq<RelocationBlockView>>>;

/// Returns the base relocations of an image, by `DataDirectories::relocation_blocks`, in their
/// order. They depend on the bytes alone; `None` means that they cannot be read, `Some(None)` that
/// there is no directory for them.
#[verifier::external_body]
pub(crate) fn read_blocks(data: &[u8]) -> (r: Option<Option<Vec<RelocationBlock>>>)
    ensures
        blocks_view(r) == pe_blocks_of(data@),
{
    let file = PeFile64::parse(data).ok()?;
    let table = file.section_table();
    let blocks = match file.data_directories().relocation_blocks(file.data(), &table).ok()? {
        Some(blocks) => blocks,
        None => return Some(None),
    };
    let all: Result<Vec<RelocationBlock>, object::Error> = blocks.map(
        |block| block.map(|b| RelocationBlock {
            page: b.virtual_address(),
            types: b.map(|relocation| relocation.typ).collect(),
        })).collect();
    all.ok().map(Some)
}

} // verus!
