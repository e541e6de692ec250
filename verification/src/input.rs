//! Input objects as the linker sees them.
use vstd::prelude::*;

verus! {

/// Where a symbol lies.
#[derive(Clone, Copy, PartialEq, Eq, Debug, Structural)]
pub enum SymbolSection {
    Unknown,
    Nowhere,
    Undefined,
    Absolute,
    Common,
    /// The section with this index in its object.
    Section(usize),
}

impl SymbolSection {
    /// The index of the section that the symbol lies in, if it lies in one.
    pub open spec fn section_id(self) -> Option<usize> {
        match self {
            SymbolSection::Section(id) => Some(id),
            _ => None,
        }
    }

    /// Returns the index of the section that the symbol lies in.
    pub fn index(self) -> (id: Option<usize>)
        ensures
            id == self.section_id(),
    {
        match self {
            SymbolSection::Section(id) => Some(id),
            _ => None,
        }
    }
}

/// What a relocation refers to.
#[derive(Clone, Copy, PartialEq, Eq, Debug, Structural)]
pub enum InputRelocationTarget {
    /// The symbol at this place in the symbol table of the same object.
    Symbol(usize),
    /// The section with this index in the same object.
    Section(usize),
    Absolute,
}

/// A relocation of an input section.
#[derive(Clone, Copy, PartialEq, Eq, Debug, Structural)]
pub struct InputRelocation {
    pub offset: u32,
    pub target: InputRelocationTarget,
    pub typ: u16,
}

/// A section of an input object.
pub struct InputSection {
    /// Index by which symbols and relocations refer to the section.
    pub index: usize,
    pub name: Vec<u8>,
    pub data: Vec<u8>,
    pub size: u32,
    pub characteristics: u32,
    pub relocations: Vec<InputRelocation>,
    /// Output section that the section became part of.
    pub output_section: Option<usize>,
    /// Offset in that output section.
    pub output_offset: u32,
}

/// A symbol of an input object.
pub struct InputSymbol {
    pub name: Option<String>,
    pub section: SymbolSection,
    pub value: u64,
    pub is_undefined: bool,
    pub is_definition: bool,
    pub is_local: bool,
}

/// An input object.
pub struct InputObject {
    /// Path of the object, for messages.
    pub path: String,
    pub sections: Vec<InputSection>,
    pub symbols: Vec<InputSymbol>,
}

/// Model of an input section.
#[verifier::ext_equal]
pub struct SectionView {
    pub index: usize,
    pub name: Seq<u8>,
    pub data: Seq<u8>,
    pub size: u32,
    pub characteristics: u32,
    pub relocations: Seq<InputRelocation>,
    pub output_section: Option<usize>,
    pub output_offset: u32,
}

/// Model of an input symbol.
#[verifier::ext_equal]
pub struct SymbolView {
    pub name: Option<Seq<char>>,
    pub section: SymbolSection,
    pub value: u64,
    pub is_undefined: bool,
    pub is_definition: bool,
    pub is_local: bool,
}

/// Model of an input object.
#[verifier::ext_equal]
pub struct ObjectView {
    pub path: Seq<char>,
    pub sections: Seq<SectionView>,
    pub symbols: Seq<SymbolView>,
}

impl View for InputSection {
    type V = SectionView;

    open spec fn view(&self) -> SectionView {
        SectionView {
            index: self.index,
            name: self.name@,
            data: self.data@,
            size: self.size,
            characteristics: self.characteristics,
            relocations: self.relocations@,
            output_section: self.output_section,
            output_offset: self.output_offset,
        }
    }
}

/// The characters of an optional string.
pub open spec fn text_of(text: Option<String>) -> Option<Seq<char>> {
    match text {
        Some(s) => Some(s@),
        None => None,
    }
}

impl View for InputSymbol {
    type V = SymbolView;

    open spec fn view(&self) -> SymbolView {
        SymbolView {
            name: text_of(self.name),
            section: self.section,
            value: self.value,
            is_undefined: self.is_undefined,
            is_definition: self.is_definition,
            is_local: self.is_local,
        }
    }
}

/// The models of a list of sections.
pub open spec fn section_views(sections: Seq<InputSection>) -> Seq<SectionView> {
    Seq::new(sections.len(), |i: int| sections[i]@)
}

/// The models of a list of symbols.
pub open spec fn symbol_views(symbols: Seq<InputSymbol>) -> Seq<SymbolView> {
    Seq::new(symbols.len(), |i: int| symbols[i]@)
}

impl View for InputObject {
    type V = ObjectView;

    open spec fn view(&self) -> ObjectView {
        ObjectView {
            path: self.path@,
            sections: section_views(self.sections@),
            symbols: symbol_views(self.symbols@),
        }
    }
}

/// The models of a list of objects.
pub open spec fn object_views(objects: Seq<InputObject>) -> Seq<ObjectView> {
    Seq::new(objects.len(), |i: int| objects[i]@)
}

/// A symbol that nothing is known of.
pub open spec fn unknown_symbol() -> SymbolView {
    SymbolView {
        name: None,
        section: SymbolSection::Nowhere,
        value: 0,
        is_undefined: true,
        is_definition: false,
        is_local: true,
    }
}

impl InputSymbol {
    /// Returns a symbol that nothing is known of.
    pub fn placeholder() -> (symbol: InputSymbol)
        ensures
            symbol@ == unknown_symbol(),
    {
        InputSymbol {
            name: None,
            section: SymbolSection::Nowhere,
            value: 0,
            is_undefined: true,
            is_definition: false,
            is_local: true,
        }
    }
}

} // verus!
