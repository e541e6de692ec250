//! Loading of COFF objects.
use crate::coff;
use crate::coff::{
    read_relocations, read_section, read_symbol, section_indices, symbol_indices, RawRelocation,
    RawSection, RawSectionView,
};
use crate::error::{LoadError, LoadErrorKind, LoadErrorView};
use crate::input;
use crate::input::{
    InputObject, InputRelocation, InputSection, InputSymbol, ObjectView, SectionView, SymbolView,
};
use vstd::prelude::*;

verus! {

// ---- sections ----

/// The relocation that was read, if the linker can use it.
pub open spec fn relocation_of(raw: RawRelocation) -> Result<InputRelocation, LoadErrorKind> {
    match (raw.typ, raw.target) {
        (None, _) => Err(LoadErrorKind::RelocationFlags),
        (_, None) => Err(LoadErrorKind::RelocationTarget),
        (Some(typ), Some(target)) => if raw.offset > u32::MAX {
            Err(LoadErrorKind::RelocationOffset)
        } else {
            Ok(InputRelocation { offset: raw.offset as u32, target, typ })
        },
    }
}

/// Returns the relocation that was read, if the linker can use it.
pub fn convert_relocation(raw: RawRelocation) -> (r: Result<InputRelocation, LoadErrorKind>)
    ensures
        r == relocation_of(raw),
{
    let typ = match raw.typ {
        Some(typ) => typ,
        None => return Err(LoadErrorKind::RelocationFlags),
    };
    let target = match raw.target {
        Some(target) => target,
        None => return Err(LoadErrorKind::RelocationTarget),
    };
    if raw.offset > u32::MAX as u64 {
        return Err(LoadErrorKind::RelocationOffset);
    }
    Ok(InputRelocation { offset: raw.offset as u32, target, typ })
}

/// The first `n` relocations that were read, if the linker can use them all.
pub open spec fn relocations_of(raw: Seq<RawRelocation>, n: int) -> Result<
    Seq<InputRelocation>,
    LoadErrorKind,
>
    decreases n,
{
    if n <= 0 {
        Ok(Seq::empty())
    } else {
        match relocations_of(raw, n - 1) {
            Err(e) => Err(e),
            Ok(list) => match relocation_of(raw[n - 1]) {
                Err(e) => Err(e),
                Ok(relocation) => Ok(list.push(relocation)),
            },
        }
    }
}

/// An error stays.
proof fn lemma_relocations_error(raw: Seq<RawRelocation>, n: int, m: int)
    requires
        0 <= n <= m,
        relocations_of(raw, n) is Err,
    ensures
        relocations_of(raw, m) == relocations_of(raw, n),
    decreases m,
{
    if n < m {
        lemma_relocations_error(raw, n, m - 1);
    }
}

/// The section that was read, if the linker can use it.
pub open spec fn section_of(
    index: usize,
    raw: RawSectionView,
    relocations: Seq<RawRelocation>,
) -> Result<SectionView, LoadErrorKind> {
    match (raw.name, raw.characteristics, raw.data) {
        (None, _, _) => Err(LoadErrorKind::SectionName),
        (_, None, _) => Err(LoadErrorKind::SectionFlags),
        (_, _, None) => Err(LoadErrorKind::SectionData),
        (Some(name), Some(characteristics), Some(data)) => match relocations_of(
            relocations,
            relocations.len() as int,
        ) {
            Err(e) => Err(e),
            Ok(relocations) => if raw.size > u32::MAX {
                Err(LoadErrorKind::SectionSize)
            } else {
                Ok(
                    SectionView {
                        index,
                        name,
                        data,
                        size: raw.size as u32,
                        characteristics,
                        relocations,
                        output_section: None,
                        output_offset: 0,
                    },
                )
            },
        },
    }
}

/// The model of what `convert_section` returns.
pub open spec fn section_result_view(r: Result<InputSection, LoadErrorKind>) -> Result<
    SectionView,
    LoadErrorKind,
> {
    match r {
        Ok(section) => Ok(section@),
        Err(e) => Err(e),
    }
}

/// Returns the section that was read, if the linker can use it.
pub fn convert_section(
    index: usize,
    raw: RawSection,
    relocations: &Vec<RawRelocation>,
) -> (r: Result<InputSection, LoadErrorKind>)
    ensures
        section_result_view(r) == section_of(index, raw@, relocations@),
{
    let name = match raw.name {
        Some(name) => name,
        None => return Err(LoadErrorKind::SectionName),
    };
    let characteristics = match raw.characteristics {
        Some(characteristics) => characteristics,
        None => return Err(LoadErrorKind::SectionFlags),
    };
    let data = match raw.data {
        Some(data) => data,
        None => return Err(LoadErrorKind::SectionData),
    };
    let mut list: Vec<InputRelocation> = Vec::new();
    let mut n: usize = 0;
    while n < relocations.len()
        invariant
            n <= relocations@.len(),
            raw@.name is Some && raw@.characteristics is Some && raw@.data is Some,
            relocations_of(relocations@, n as int) == Ok::<Seq<InputRelocation>, LoadErrorKind>(
                list@,
            ),
        decreases relocations@.len() - n,
    {
        match convert_relocation(relocations[n]) {
            Ok(relocation) => {
                list.push(relocation);
            },
            Err(e) => {
                proof {
                    lemma_relocations_error(relocations@, n + 1, relocations@.len() as int);
                }
                return Err(e);
            },
        }
        n += 1;
    }
    if raw.size > u32::MAX as u64 {
        return Err(LoadErrorKind::SectionSize);
    }
    Ok(
        InputSection {
            index,
            name,
            data,
            size: raw.size as u32,
            characteristics,
            relocations: list,
            output_section: None,
            output_offset: 0,
        },
    )
}

/// The section of an object with this index, if the linker can use it.
pub open spec fn loaded_section(data: Seq<u8>, index: usize) -> Result<SectionView, LoadErrorKind> {
    match (coff::coff_section(data, index), coff::coff_relocations(data, index)) {
        (Some(raw), Some(relocations)) => section_of(index, raw, relocations),
        _ => Err(LoadErrorKind::Parse),
    }
}

/// The sections of an object with the first `n` indices, if the linker can use them all.
pub open spec fn loaded_sections(data: Seq<u8>, indices: Seq<usize>, n: int) -> Result<
    Seq<SectionView>,
    LoadErrorKind,
>
    decreases n,
{
    if n <= 0 {
        Ok(Seq::empty())
    } else {
        match loaded_sections(data, indices, n - 1) {
            Err(e) => Err(e),
            Ok(list) => match loaded_section(data, indices[n - 1]) {
                Err(e) => Err(e),
                Ok(section) => Ok(list.push(section)),
            },
        }
    }
}

/// An error stays.
proof fn lemma_sections_error(data: Seq<u8>, indices: Seq<usize>, n: int, m: int)
    requires
        0 <= n <= m,
        loaded_sections(data, indices, n) is Err,
    ensures
        loaded_sections(data, indices, m) == loaded_sections(data, indices, n),
    decreases m,
{
    if n < m {
        lemma_sections_error(data, indices, n, m - 1);
    }
}

/// Loads the sections of an object.
fn load_sections(data: &[u8], indices: &Vec<usize>) -> (r: Result<Vec<InputSection>, LoadErrorKind>)
    requires
        coff::is_coff(data@),
    ensures
        match r {
            Ok(list) => loaded_sections(data@, indices@, indices@.len() as int) == Ok::<
                Seq<SectionView>,
                LoadErrorKind,
            >(input::section_views(list@)),
            Err(e) => loaded_sections(data@, indices@, indices@.len() as int) == Err::<
                Seq<SectionView>,
                LoadErrorKind,
            >(e),
        },
{
    let mut list: Vec<InputSection> = Vec::new();
    assert(input::section_views(list@) =~= Seq::<SectionView>::empty());
    let mut n: usize = 0;
    while n < indices.len()
        invariant
            n <= indices@.len(),
            coff::is_coff(data@),
            loaded_sections(data@, indices@, n as int) == Ok::<Seq<SectionView>, LoadErrorKind>(
                input::section_views(list@),
            ),
        decreases indices@.len() - n,
    {
        let index = indices[n];
        proof {
            if loaded_sections(data@, indices@, n + 1) is Err {
                lemma_sections_error(data@, indices@, n + 1, indices@.len() as int);
            }
        }
        let raw = match read_section(data, index) {
            Some(raw) => raw,
            None => return Err(LoadErrorKind::Parse),
        };
        let relocations = match read_relocations(data, index) {
            Some(relocations) => relocations,
            None => return Err(LoadErrorKind::Parse),
        };
        match convert_section(index, raw, &relocations) {
            Ok(section) => {
                let ghost before = list@;
                list.push(section);
                assert(input::section_views(list@) =~= input::section_views(before).push(
                    section@,
                ));
            },
            Err(e) => return Err(e),
        }
        n += 1;
    }
    Ok(list)
}

// ---- symbols ----

/// The symbol without an empty name.
pub open spec fn without_empty_name(symbol: SymbolView) -> SymbolView {
    match symbol.name {
        Some(name) if name.len() == 0 => SymbolView { name: None, ..symbol },
        _ => symbol,
    }
}

/// The symbol table with a symbol put at its place; places that have not been filled hold symbols
/// that nothing is known of.
pub open spec fn with_symbol(symbols: Seq<SymbolView>, index: int, symbol: SymbolView) -> Seq<
    SymbolView,
> {
    Seq::new(
        if symbols.len() <= index {
            (index + 1) as nat
        } else {
            symbols.len()
        },
        |i: int|
            if i == index {
                without_empty_name(symbol)
            } else if i < symbols.len() {
                symbols[i]
            } else {
                input::unknown_symbol()
            },
    )
}

/// Puts a symbol at its place in the symbol table.
pub fn place_symbol(symbols: &mut Vec<InputSymbol>, index: usize, symbol: InputSymbol)
    requires
        index < usize::MAX,
    ensures
        input::symbol_views(final(symbols)@) == with_symbol(
            input::symbol_views(old(symbols)@),
            index as int,
            symbol@,
        ),
{
    let ghost before = symbols@;
    while symbols.len() <= index
        invariant
            symbols@.len() >= before.len(),
            symbols@.len() <= index + 1 || symbols@.len() == before.len(),
            forall|i: int| 0 <= i < before.len() ==> symbols@[i] == before[i],
            forall|i: int|
                before.len() <= i < symbols@.len() ==> (#[trigger] symbols@[i])@
                    == input::unknown_symbol(),
        decreases index + 1 - symbols@.len(),
    {
        symbols.push(InputSymbol::placeholder());
    }
    let ghost view = symbol@;
    let mut symbol = symbol;
    let is_empty = match &symbol.name {
        Some(name) => name.as_str().is_empty(),
        None => false,
    };
    if is_empty {
        symbol.name = None;
    }
    assert(symbol@ == without_empty_name(view));
    symbols[index] = symbol;
    assert(input::symbol_views(symbols@) =~= with_symbol(
        input::symbol_views(before),
        index as int,
        view,
    ));
}

/// The symbol table with the first `n` symbols put at their places.
pub open spec fn loaded_symbols(data: Seq<u8>, indices: Seq<usize>, n: int) -> Result<
    Seq<SymbolView>,
    LoadErrorKind,
>
    decreases n,
{
    if n <= 0 {
        Ok(Seq::empty())
    } else {
        match loaded_symbols(data, indices, n - 1) {
            Err(e) => Err(e),
            Ok(list) => if indices[n - 1] == usize::MAX {
                Err(LoadErrorKind::SymbolIndex)
            } else {
                match coff::coff_symbol(data, indices[n - 1]) {
                    None => Err(LoadErrorKind::Parse),
                    Some(symbol) => Ok(with_symbol(list, indices[n - 1] as int, symbol)),
                }
            },
        }
    }
}

/// An error stays.
proof fn lemma_symbols_error(data: Seq<u8>, indices: Seq<usize>, n: int, m: int)
    requires
        0 <= n <= m,
        loaded_symbols(data, indices, n) is Err,
    ensures
        loaded_symbols(data, indices, m) == loaded_symbols(data, indices, n),
    decreases m,
{
    if n < m {
        lemma_symbols_error(data, indices, n, m - 1);
    }
}

/// Loads the symbols of an object.
fn load_symbols(data: &[u8], indices: &Vec<usize>) -> (r: Result<Vec<InputSymbol>, LoadErrorKind>)
    requires
        coff::is_coff(data@),
    ensures
        match r {
            Ok(list) => loaded_symbols(data@, indices@, indices@.len() as int) == Ok::<
                Seq<SymbolView>,
                LoadErrorKind,
            >(input::symbol_views(list@)),
            Err(e) => loaded_symbols(data@, indices@, indices@.len() as int) == Err::<
                Seq<SymbolView>,
                LoadErrorKind,
            >(e),
        },
{
    let mut list: Vec<InputSymbol> = Vec::new();
    assert(input::symbol_views(list@) =~= Seq::<SymbolView>::empty());
    let mut n: usize = 0;
    while n < indices.len()
        invariant
            n <= indices@.len(),
            coff::is_coff(data@),
            loaded_symbols(data@, indices@, n as int) == Ok::<Seq<SymbolView>, LoadErrorKind>(
                input::symbol_views(list@),
            ),
        decreases indices@.len() - n,
    {
        let index = indices[n];
        proof {
            if loaded_symbols(data@, indices@, n + 1) is Err {
                lemma_symbols_error(data@, indices@, n + 1, indices@.len() as int);
            }
        }
        if index == usize::MAX {
            return Err(LoadErrorKind::SymbolIndex);
        }
        match read_symbol(data, index) {
            Some(symbol) => {
                place_symbol(&mut list, index, symbol);
            },
            None => return Err(LoadErrorKind::Parse),
        }
        n += 1;
    }
    Ok(list)
}

// ---- objects ----

/// The error for the object at a path.
pub open spec fn load_error(path: Seq<char>, kind: LoadErrorKind) -> LoadErrorView {
    LoadErrorView { path, kind }
}

/// The object that the bytes stand for.
pub open spec fn parsed_object(path: Seq<char>, data: Seq<u8>) -> Result<
    ObjectView,
    LoadErrorView,
> {
    match (coff::coff_sections(data), coff::coff_symbols(data)) {
        (Some(section_ids), Some(symbol_ids)) => match loaded_sections(
            data,
            section_ids,
            section_ids.len() as int,
        ) {
            Err(e) => Err(load_error(path, e)),
            Ok(sections) => match loaded_symbols(data, symbol_ids, symbol_ids.len() as int) {
                Err(e) => Err(load_error(path, e)),
                Ok(symbols) => Ok(ObjectView { path, sections, symbols }),
            },
        },
        _ => Err(load_error(path, LoadErrorKind::Parse)),
    }
}

/// The model of what `parse_input_object` returns.
pub open spec fn object_result_view(r: Result<InputObject, LoadError>) -> Result<
    ObjectView,
    LoadErrorView,
> {
    match r {
        Ok(object) => Ok(object@),
        Err(e) => Err(e@),
    }
}

/// Returns the object that the bytes stand for, if they are those of a COFF object.
pub fn parse_input_object(path: String, data: &[u8]) -> (r: Result<InputObject, LoadError>)
    requires
        coff::is_coff(data@),
    ensures
        object_result_view(r) == parsed_object(path@, data@),
{
    let section_ids = match section_indices(data) {
        Some(ids) => ids,
        None => return Err(LoadError { path, kind: LoadErrorKind::Parse }),
    };
    let symbol_ids = match symbol_indices(data) {
        Some(ids) => ids,
        None => return Err(LoadError { path, kind: LoadErrorKind::Parse }),
    };
    let sections = match load_sections(data, &section_ids) {
        Ok(sections) => sections,
        Err(kind) => return Err(LoadError { path, kind }),
    };
    let symbols = match load_symbols(data, &symbol_ids) {
        Ok(symbols) => symbols,
        Err(kind) => return Err(LoadError { path, kind }),
    };
    Ok(InputObject { path, sections, symbols })
}

} // verus!
