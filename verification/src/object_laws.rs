//! What every loaded object holds of its file.
use crate::coff;
use crate::coff::{RawRelocation, RawSectionView};
use crate::error::{LoadErrorKind, LoadErrorView};
use crate::input::{InputObject, InputRelocation, InputSection, InputSymbol, ObjectView};
use crate::input::{SectionView, SymbolSection, SymbolView};
use crate::pe_object;
use vstd::prelude::*;

verus! {

// ---- models ----

/// The models of sections, symbols and objects hold all that these hold.
pub proof fn models_hold_everything(section: InputSection, symbol: InputSymbol, object: InputObject)
    ensures
        section@.index == section.index,
        section@.name == section.name@,
        section@.data == section.data@,
        section@.size == section.size,
        section@.characteristics == section.characteristics,
        section@.relocations == section.relocations@,
        section@.output_section == section.output_section,
        section@.output_offset == section.output_offset,
        symbol@.name is Some <==> symbol.name is Some,
        symbol@.name is Some ==> symbol@.name->0 == symbol.name->0@,
        symbol@.section == symbol.section,
        symbol@.value == symbol.value,
        symbol@.is_undefined == symbol.is_undefined,
        symbol@.is_definition == symbol.is_definition,
        symbol@.is_local == symbol.is_local,
        object@.path == object.path@,
        object@.sections.len() == object.sections@.len(),
        forall|j: int|
            0 <= j < object.sections@.len() ==> #[trigger] object@.sections[j]
                == object.sections@[j]@,
        object@.symbols.len() == object.symbols@.len(),
        forall|s: int|
            0 <= s < object.symbols@.len() ==> #[trigger] object@.symbols[s] == object.symbols@[s]@,
{
}

// ---- sections ----

/// Whether a relocation is the one that was read: it has the same offset, type and target.
pub open spec fn is_relocation_of(relocation: InputRelocation, raw: RawRelocation) -> bool {
    &&& relocation.offset == raw.offset
    &&& raw.typ == Some(relocation.typ)
    &&& raw.target == Some(relocation.target)
}

/// Whether a section is the one that was read: it has the same index, name, data, size and flags,
/// all bits of them, and the same relocations, one for each that was read, in order. It has no
/// place in the output.
pub open spec fn is_section_of(
    section: SectionView,
    index: usize,
    raw: RawSectionView,
    relocations: Seq<RawRelocation>,
) -> bool {
    &&& section.index == index
    &&& raw.name == Some(section.name)
    &&& raw.data == Some(section.data)
    &&& section.size == raw.size
    &&& raw.characteristics == Some(section.characteristics)
    &&& section.relocations.len() == relocations.len()
    &&& forall|m: int|
        0 <= m < relocations.len() ==> is_relocation_of(
            #[trigger] section.relocations[m],
            relocations[m],
        )
    &&& section.output_section is None
    &&& section.output_offset == 0
}

/// Whether the linker can use a relocation: its type and its target are known, and its offset fits
/// in 32 bits.
pub open spec fn is_usable_relocation(raw: RawRelocation) -> bool {
    raw.typ is Some && raw.target is Some && raw.offset <= 0xFFFF_FFFF
}

/// Whether the linker can use a section: its name, its flags and its data can be read, its size
/// fits in 32 bits, and it can use all of its relocations.
pub open spec fn is_usable_section(raw: RawSectionView, relocations: Seq<RawRelocation>) -> bool {
    &&& raw.name is Some
    &&& raw.characteristics is Some
    &&& raw.data is Some
    &&& raw.size <= 0xFFFF_FFFF
    &&& forall|m: int|
        0 <= m < relocations.len() ==> is_usable_relocation(#[trigger] relocations[m])
}

/// The relocations of a section.
proof fn lemma_relocations(raw: Seq<RawRelocation>, n: int)
    requires
        0 <= n <= raw.len(),
    ensures
        match pe_object::relocations_of(raw, n) {
            Ok(list) => {
                &&& list.len() == n
                &&& forall|m: int| 0 <= m < n ==> is_usable_relocation(#[trigger] raw[m])
                &&& forall|m: int|
                    0 <= m < n ==> is_relocation_of(#[trigger] list[m], raw[m])
            },
            Err(e) => {
                &&& !(forall|m: int| 0 <= m < n ==> is_usable_relocation(#[trigger] raw[m]))
                &&& e == LoadErrorKind::RelocationFlags || e == LoadErrorKind::RelocationTarget || e
                    == LoadErrorKind::RelocationOffset
            },
        },
    decreases n,
{
    if n > 0 {
        lemma_relocations(raw, n - 1);
        assert(is_usable_relocation(raw[n - 1]) <==> pe_object::relocation_of(raw[n - 1]) is Ok);
    }
}

/// A section can be loaded exactly if the linker can use it, and it is the one that was read. Else
/// the error says what is wrong with it: first its name counts, then its flags, its data, its
/// relocations and its size.
pub proof fn sections_are_loaded_as_they_are(
    index: usize,
    raw: RawSectionView,
    relocations: Seq<RawRelocation>,
)
    ensures
        pe_object::section_of(index, raw, relocations) is Ok <==> is_usable_section(
            raw,
            relocations,
        ),
        match pe_object::section_of(index, raw, relocations) {
            Ok(section) => is_section_of(section, index, raw, relocations),
            Err(e) => if raw.name is None {
                e == LoadErrorKind::SectionName
            } else if raw.characteristics is None {
                e == LoadErrorKind::SectionFlags
            } else if raw.data is None {
                e == LoadErrorKind::SectionData
            } else if exists|m: int|
                0 <= m < relocations.len() && !is_usable_relocation(#[trigger] relocations[m]) {
                e == LoadErrorKind::RelocationFlags || e == LoadErrorKind::RelocationTarget || e
                    == LoadErrorKind::RelocationOffset
            } else {
                e == LoadErrorKind::SectionSize
            },
        },
{
    lemma_relocations(relocations, relocations.len() as int);
}

/// A relocation can be loaded exactly if the linker can use it; else the error says what is wrong
/// with it.
pub proof fn relocations_are_loaded_as_they_are(raw: RawRelocation)
    ensures
        match pe_object::relocation_of(raw) {
            Ok(relocation) => is_usable_relocation(raw) && is_relocation_of(relocation, raw),
            Err(e) => if raw.typ is None {
                e == LoadErrorKind::RelocationFlags
            } else if raw.target is None {
                e == LoadErrorKind::RelocationTarget
            } else {
                raw.offset > 0xFFFF_FFFF && e == LoadErrorKind::RelocationOffset
            },
        },
{
}

/// Whether the linker can use the section of a file with this index.
pub open spec fn has_usable_section(data: Seq<u8>, id: usize) -> bool {
    &&& coff::coff_section(data, id) is Some
    &&& coff::coff_relocations(data, id) is Some
    &&& is_usable_section(coff::coff_section(data, id)->0, coff::coff_relocations(data, id)->0)
}

/// The sections of a file.
proof fn lemma_sections(data: Seq<u8>, ids: Seq<usize>, n: int)
    requires
        0 <= n <= ids.len(),
    ensures
        match pe_object::loaded_sections(data, ids, n) {
            Ok(list) => {
                &&& list.len() == n
                &&& forall|k: int|
                    0 <= k < n ==> has_usable_section(data, #[trigger] ids[k]) && is_section_of(
                        list[k],
                        ids[k],
                        coff::coff_section(data, ids[k])->0,
                        coff::coff_relocations(data, ids[k])->0,
                    )
            },
            Err(_) => !(forall|k: int|
                0 <= k < n ==> has_usable_section(data, #[trigger] ids[k])),
        },
    decreases n,
{
    if n > 0 {
        lemma_sections(data, ids, n - 1);
        let id = ids[n - 1];
        if coff::coff_section(data, id) is Some && coff::coff_relocations(data, id) is Some {
            sections_are_loaded_as_they_are(
                id,
                coff::coff_section(data, id)->0,
                coff::coff_relocations(data, id)->0,
            );
        }
        if pe_object::loaded_sections(data, ids, n) is Ok {
            let before = pe_object::loaded_sections(data, ids, n - 1)->Ok_0;
            let list = pe_object::loaded_sections(data, ids, n)->Ok_0;
            assert forall|k: int| 0 <= k < n implies has_usable_section(data, #[trigger] ids[k])
                && is_section_of(
                list[k],
                ids[k],
                coff::coff_section(data, ids[k])->0,
                coff::coff_relocations(data, ids[k])->0,
            ) by {
                if k < n - 1 {
                    assert(list[k] == before[k]);
                }
            }
        }
    }
}

// ---- symbols ----

/// Whether a symbol is the one that was read: it has the same section, value and flags, and the
/// same name, unless that is empty.
pub open spec fn is_symbol_of(symbol: SymbolView, raw: SymbolView) -> bool {
    &&& symbol.section == raw.section
    &&& symbol.value == raw.value
    &&& symbol.is_undefined == raw.is_undefined
    &&& symbol.is_definition == raw.is_definition
    &&& symbol.is_local == raw.is_local
    &&& match raw.name {
        None => symbol.name is None,
        Some(name) => if name.len() == 0 {
            symbol.name is None
        } else {
            symbol.name == Some(name)
        },
    }
}

/// Whether nothing is known of a symbol: it has no name, lies nowhere, and counts as undefined and
/// local.
pub open spec fn is_unknown(symbol: SymbolView) -> bool {
    &&& symbol.name is None
    &&& symbol.section == SymbolSection::Nowhere
    &&& symbol.value == 0
    &&& symbol.is_undefined
    &&& !symbol.is_definition
    &&& symbol.is_local
}

/// Whether the place `i` of a symbol table holds what it should: the symbol that has the place for
/// its index, the last one where there are more, or one that nothing is known of.
pub open spec fn is_right_at(
    table: Seq<SymbolView>,
    data: Seq<u8>,
    ids: Seq<usize>,
    n: int,
    i: int,
) -> bool {
    &&& (forall|k: int| 0 <= k < n ==> #[trigger] ids[k] != i) ==> is_unknown(table[i])
    &&& forall|k: int|
        {
            &&& 0 <= k < n
            &&& #[trigger] ids[k] == i
            &&& is_last(ids, n, k)
        } ==> is_symbol_of(table[i], coff::coff_symbol(data, ids[k])->0)
}

/// Whether none of the first `n` numbers behind the `k`-th is equal to it.
pub open spec fn is_last(ids: Seq<usize>, n: int, k: int) -> bool {
    forall|l: int| k < l < n ==> #[trigger] ids[l] != ids[k]
}

/// Whether the symbol table is just long enough for the first `n` symbols.
pub open spec fn is_just_long_enough(table: Seq<SymbolView>, ids: Seq<usize>, n: int) -> bool {
    &&& forall|k: int| 0 <= k < n ==> #[trigger] ids[k] < table.len()
    &&& table.len() > 0 ==> exists|k: int| 0 <= k < n && #[trigger] ids[k] + 1 == table.len()
}

/// Whether the linker can use a symbol: it can be read, and a table can have a place for it.
pub open spec fn has_usable_symbol(data: Seq<u8>, id: usize) -> bool {
    id < usize::MAX && coff::coff_symbol(data, id) is Some
}

/// The symbols of a file.
proof fn lemma_symbols(data: Seq<u8>, ids: Seq<usize>, n: int)
    requires
        0 <= n <= ids.len(),
    ensures
        match pe_object::loaded_symbols(data, ids, n) {
            Ok(table) => {
                &&& forall|k: int| 0 <= k < n ==> has_usable_symbol(data, #[trigger] ids[k])
                &&& is_just_long_enough(table, ids, n)
                &&& forall|i: int|
                    0 <= i < table.len() ==> #[trigger] is_right_at(table, data, ids, n, i)
            },
            Err(_) => !(forall|k: int| 0 <= k < n ==> has_usable_symbol(data, #[trigger] ids[k])),
        },
    decreases n,
{
    if n > 0 {
        lemma_symbols(data, ids, n - 1);
        if pe_object::loaded_symbols(data, ids, n) is Ok {
            let before = pe_object::loaded_symbols(data, ids, n - 1)->Ok_0;
            let table = pe_object::loaded_symbols(data, ids, n)->Ok_0;
            let own = ids[n - 1];
            assert(is_symbol_of(table[own as int], coff::coff_symbol(data, own)->0));
            assert(is_just_long_enough(table, ids, n)) by {
                if own < before.len() {
                    let k = choose|k: int|
                        0 <= k < n - 1 && #[trigger] ids[k] + 1 == before.len();
                    assert(ids[k] + 1 == table.len());
                } else {
                    assert(ids[n - 1] + 1 == table.len());
                }
            }
            assert forall|i: int| 0 <= i < table.len() implies #[trigger] is_right_at(
                table,
                data,
                ids,
                n,
                i,
            ) by {
                if i == own {
                    assert forall|k: int|
                        {
                            &&& 0 <= k < n
                            &&& #[trigger] ids[k] == i
                            &&& is_last(ids, n, k)
                        } implies is_symbol_of(table[i], coff::coff_symbol(data, ids[k])->0) by {
                        if k < n - 1 {
                            assert(ids[n - 1] != ids[k]);
                        }
                    }
                } else {
                    if i < before.len() {
                        assert(is_right_at(before, data, ids, n - 1, i));
                        assert(table[i] == before[i]);
                    }
                    assert forall|k: int|
                        {
                            &&& 0 <= k < n
                            &&& #[trigger] ids[k] == i
                            &&& is_last(ids, n, k)
                        } implies is_symbol_of(table[i], coff::coff_symbol(data, ids[k])->0) by {
                        assert(k < n - 1);
                        assert(is_last(ids, n - 1, k));
                        assert(ids[k] < before.len());
                    }
                }
            }
        } else if pe_object::loaded_symbols(data, ids, n - 1) is Ok {
            assert(!has_usable_symbol(data, ids[n - 1]));
        }
    }
}

// ---- objects ----

/// A loaded object holds what its file holds: each section with the name, the data, the size, the
/// flags and the relocations that the file gives for its index, in the order of the file, and each
/// symbol at its index.
pub proof fn objects_hold_what_their_file_holds(
    path: Seq<char>,
    data: Seq<u8>,
    object: ObjectView,
)
    requires
        pe_object::parsed_object(path, data) == Ok::<ObjectView, LoadErrorView>(object),
    ensures
        object.path == path,
        coff::coff_sections(data) is Some,
        coff::coff_symbols(data) is Some,
        ({
            let ids = coff::coff_sections(data)->0;
            &&& object.sections.len() == ids.len()
            &&& forall|k: int|
                0 <= k < ids.len() ==> has_usable_section(data, #[trigger] ids[k])
                    && is_section_of(
                    object.sections[k],
                    ids[k],
                    coff::coff_section(data, ids[k])->0,
                    coff::coff_relocations(data, ids[k])->0,
                )
        }),
        ({
            let ids = coff::coff_symbols(data)->0;
            &&& is_just_long_enough(object.symbols, ids, ids.len() as int)
            &&& forall|i: int|
                0 <= i < object.symbols.len() ==> #[trigger] is_right_at(
                    object.symbols,
                    data,
                    ids,
                    ids.len() as int,
                    i,
                )
        }),
{
    let sections = coff::coff_sections(data)->0;
    let symbols = coff::coff_symbols(data)->0;
    lemma_sections(data, sections, sections.len() as int);
    lemma_symbols(data, symbols, symbols.len() as int);
}

/// A file can be loaded as an object exactly if its sections and symbols can be listed and the
/// linker can use all of them. The error names the file.
pub proof fn objects_load_where_all_parts_can_be_used(path: Seq<char>, data: Seq<u8>)
    ensures
        pe_object::parsed_object(path, data) is Ok <==> {
            &&& coff::coff_sections(data) is Some
            &&& coff::coff_symbols(data) is Some
            &&& forall|k: int|
                0 <= k < coff::coff_sections(data)->0.len() ==> has_usable_section(
                    data,
                    #[trigger] coff::coff_sections(data)->0[k],
                )
            &&& forall|k: int|
                0 <= k < coff::coff_symbols(data)->0.len() ==> has_usable_symbol(
                    data,
                    #[trigger] coff::coff_symbols(data)->0[k],
                )
        },
        pe_object::parsed_object(path, data) matches Err(e) ==> e.path == path,
{
    if coff::coff_sections(data) is Some && coff::coff_symbols(data) is Some {
        let sections = coff::coff_sections(data)->0;
        let symbols = coff::coff_symbols(data)->0;
        lemma_sections(data, sections, sections.len() as int);
        lemma_symbols(data, symbols, symbols.len() as int);
    }
}

/// The section that cannot be used.
proof fn lemma_first_bad_section(data: Seq<u8>, ids: Seq<usize>, n: int, k: int)
    requires
        0 <= k < n <= ids.len(),
        !has_usable_section(data, ids[k]),
        forall|l: int| 0 <= l < k ==> has_usable_section(data, #[trigger] ids[l]),
    ensures
        pe_object::loaded_sections(data, ids, n) == Err::<Seq<SectionView>, LoadErrorKind>(
            section_failure(data, ids[k]),
        ),
    decreases n,
{
    if k < n - 1 {
        lemma_first_bad_section(data, ids, n - 1, k);
    } else {
        lemma_sections(data, ids, k);
        if coff::coff_section(data, ids[k]) is Some && coff::coff_relocations(data, ids[k]) is Some {
            sections_are_loaded_as_they_are(
                ids[k],
                coff::coff_section(data, ids[k])->0,
                coff::coff_relocations(data, ids[k])->0,
            );
        }
    }
}

/// What is wrong with a section that cannot be used: it cannot be read, or something is wrong with
/// what was read.
pub open spec fn section_failure(data: Seq<u8>, id: usize) -> LoadErrorKind {
    match (coff::coff_section(data, id), coff::coff_relocations(data, id)) {
        (Some(raw), Some(relocations)) => pe_object::section_of(id, raw, relocations)->Err_0,
        _ => LoadErrorKind::Parse,
    }
}

/// The symbol that cannot be used.
proof fn lemma_first_bad_symbol(data: Seq<u8>, ids: Seq<usize>, n: int, k: int)
    requires
        0 <= k < n <= ids.len(),
        !has_usable_symbol(data, ids[k]),
        forall|l: int| 0 <= l < k ==> has_usable_symbol(data, #[trigger] ids[l]),
    ensures
        pe_object::loaded_symbols(data, ids, n) == Err::<Seq<SymbolView>, LoadErrorKind>(
            if ids[k] == usize::MAX {
                LoadErrorKind::SymbolIndex
            } else {
                LoadErrorKind::Parse
            },
        ),
    decreases n,
{
    if k < n - 1 {
        lemma_first_bad_symbol(data, ids, n - 1, k);
    } else {
        lemma_symbols(data, ids, k);
    }
}

/// Where a file cannot be loaded as an object, the error says what is wrong with the first section
/// that cannot be used; if all can be, what is wrong with the first symbol that cannot be. Where
/// they cannot even be listed, the file is no object.
pub proof fn loading_says_what_is_wrong(path: Seq<char>, data: Seq<u8>, k: int)
    requires
        0 <= k,
    ensures
        ({
            let r = pe_object::parsed_object(path, data);
            let error = |kind: LoadErrorKind|
                Err::<ObjectView, LoadErrorView>(LoadErrorView { path, kind });
            if coff::coff_sections(data) is None || coff::coff_symbols(data) is None {
                r == error(LoadErrorKind::Parse)
            } else {
                let sections = coff::coff_sections(data)->0;
                let symbols = coff::coff_symbols(data)->0;
                &&& k < sections.len() && !has_usable_section(data, sections[k]) && (forall|l: int|
                    0 <= l < k ==> has_usable_section(data, #[trigger] sections[l])) ==> r == error(
                    section_failure(data, sections[k]),
                )
                &&& k < symbols.len() && !has_usable_symbol(data, symbols[k]) && (forall|l: int|
                    0 <= l < k ==> has_usable_symbol(data, #[trigger] symbols[l])) && (forall|l: int|
                    0 <= l < sections.len() ==> has_usable_section(data, #[trigger] sections[l]))
                    ==> r == error(
                    if symbols[k] == usize::MAX {
                        LoadErrorKind::SymbolIndex
                    } else {
                        LoadErrorKind::Parse
                    },
                )
            }
        }),
{
    if coff::coff_sections(data) is Some && coff::coff_symbols(data) is Some {
        let sections = coff::coff_sections(data)->0;
        let symbols = coff::coff_symbols(data)->0;
        if k < sections.len() && !has_usable_section(data, sections[k]) && (forall|l: int|
            0 <= l < k ==> has_usable_section(data, #[trigger] sections[l])) {
            lemma_first_bad_section(data, sections, sections.len() as int, k);
        }
        if k < symbols.len() && !has_usable_symbol(data, symbols[k]) && (forall|l: int|
            0 <= l < k ==> has_usable_symbol(data, #[trigger] symbols[l])) {
            lemma_first_bad_symbol(data, symbols, symbols.len() as int, k);
        }
        lemma_sections(data, sections, sections.len() as int);
    }
}

} // verus!
