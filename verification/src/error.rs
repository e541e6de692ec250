//! What can go wrong between the input objects and the finished image.
use crate::coff::InputKind;
use vstd::prelude::*;

verus! {

/// The relocations whose value has to fit in 32 unsigned bits.
#[derive(Clone, Copy, PartialEq, Eq, Debug, Structural)]
pub enum RelocationName {
    Addr32,
    Addr32Nb,
    SecRel,
}

/// Why an image could not be linked.
///
/// Objects, sections and symbols are named by their positions in the layout.
#[derive(Clone, Copy, PartialEq, Eq, Debug, Structural)]
pub enum LinkError {
    /// The requested architecture is not x86-64.
    UnsupportedArchitecture,
    /// There is nothing to link.
    NoInputs,
    /// A size or an address does not fit in its machine integer.
    ArithmeticOverflow,
    /// The contents of one output section exceed 32 bits.
    SectionSizeOverflow,
    /// The file exceeds 32 bits.
    FileSizeOverflow,
    /// The image exceeds 32 bits.
    ImageSizeOverflow,
    /// A section claims a place in the output that no output section gives it.
    SectionRemap,
    /// Two objects define one external symbol.
    DuplicateSymbol { previous_object: usize, object: usize, symbol: usize },
    /// A symbol lies in a section that its object does not have.
    MissingSymbolSection { object: usize, section_id: usize },
    /// The section is not part of the output.
    SectionNotInOutput { object: usize, section: usize },
    /// A relocation names a symbol that its object does not have.
    MissingSymbol { object: usize, symbol: usize },
    /// A symbol has neither an address nor a definition elsewhere.
    UnresolvedSymbol { object: usize, symbol: usize },
    /// A relocation names a section that its object does not have.
    MissingRelocationSection { object: usize, section_id: usize },
    /// A relocation names a section that is not part of the output.
    DiscardedSection,
    /// The number of an output section exceeds 16 bits.
    TooManySections,
    /// No candidate for the entry point is defined.
    EntryPointNotFound,
    /// The entry point, given by its place among the candidates, is outside of the image.
    EntryPointOutsideImage { candidate: usize },
    /// The distance to the target exceeds 32 bits.
    Rel32OutOfRange,
    /// The value of the relocation exceeds 32 bits.
    ValueOverflow { relocation: RelocationName, value: u64 },
    /// The target lies below the image base.
    TargetBelowImageBase,
    /// The target lies below the output section.
    TargetBelowSection,
    /// A `SECTION` relocation names a symbol that its object does not have.
    SectionSymbolMissing,
    /// A `SECTION` relocation names a symbol that lies in no section.
    SymbolWithoutSection,
    /// The linker does not know the type of a relocation of the section.
    UnsupportedRelocation { typ: u16, object: usize, section: usize },
    /// A relocated field of so many bytes lies outside of the file.
    WriteOutOfBounds { width: u8 },
    /// A header does not fit in the file.
    HeaderOutOfBounds { need: u64, have: u64 },
    /// The contents of an input section do not fit in the file.
    SectionOutOfBounds { object: usize, section: usize },
}

/// Why an input could not be loaded.
#[derive(Clone, Copy, PartialEq, Eq, Debug, Structural)]
pub enum LoadErrorKind {
    /// The kind of the file is not known.
    Identify,
    /// The linker has no use for files of this kind.
    UnsupportedKind { kind: InputKind },
    /// The file is an import library member.
    ImportLibrary,
    /// The file is no COFF object.
    Parse,
    /// The name of a section cannot be read.
    SectionName,
    /// The flags of a section are not those of COFF.
    SectionFlags,
    /// The data of a section cannot be read.
    SectionData,
    /// The type of a relocation is not one of COFF.
    RelocationFlags,
    /// The linker does not know what a relocation refers to.
    RelocationTarget,
    /// The offset of a relocation exceeds 32 bits.
    RelocationOffset,
    /// The size of a section exceeds 32 bits.
    SectionSize,
    /// The index of a symbol exceeds what a table can hold.
    SymbolIndex,
    /// The file is no archive.
    ArchiveParse,
    /// The symbol table of an archive cannot be read.
    ArchiveSymbols,
    /// A symbol of an archive cannot be read.
    ArchiveSymbol,
    /// The archive has no member at this offset.
    ArchiveMember { offset: u64 },
    /// The contents of an archive member cannot be read.
    MemberData,
    /// The kind of an archive member is not known.
    MemberIdentify,
    /// The linker has no use for archive members of this kind.
    UnsupportedMember { kind: InputKind },
}

/// An input that could not be loaded.
#[derive(Debug)]
pub struct LoadError {
    /// Path of the input; for an archive member, the path of the archive and the name of the member
    /// in brackets.
    pub path: String,
    pub kind: LoadErrorKind,
}

/// Model of an input that could not be loaded.
pub struct LoadErrorView {
    pub path: Seq<char>,
    pub kind: LoadErrorKind,
}

impl View for LoadError {
    type V = LoadErrorView;

    open spec fn view(&self) -> LoadErrorView {
        LoadErrorView { path: self.path@, kind: self.kind }
    }
}

} // verus!
